use crate::lexer::{
    kind_name, tokens_view, DefinitionType as TokenDefinitionType, DefinitionTypeView, DirectiveType as TokenDirectiveType,
    Fault, FaultView, IdentifierType as TokenIdentifierType, IdentifierTypeView, Token, TokenValue, TokenValueView, TokenView,
    TypeIdentifierType as TokenTypeIdentifierType, fault_view, is_literal, span,
};
use crate::util::{decimal_text, usize_to_decimal};
use std::ops::Range;
use vstd::prelude::*;

verus! {

// Statement

pub struct Property {
    pub internal_type: TokenTypeIdentifierType,
    pub name: String,
    pub definition_type: TokenDefinitionType,
}

pub enum DefinitionType {
    Raw,
    Collective,
    Root(String),
}

pub struct Definition {
    pub name: String,
    pub children: Vec<Statement>,
    pub inherits: Vec<String>,
    pub definition_type: DefinitionType,
}

pub struct Setter {
    pub name: String,
    pub value: Token,
    pub range: Range<usize>,
}

pub struct Object {
    pub name: String,
    pub children: Vec<Statement>,
    pub arguments: Vec<Token>,
    pub setters: Vec<Setter>,
}

pub enum StatementValue {
    Property(Property),
    Definition(Definition),
    Object(Object),
    Header(String),
    Include(String),
}

pub struct Statement {
    pub value: StatementValue,
    pub range: Range<usize>,
}

// Mathematical models

pub struct PropertyView {
    pub internal_type: TokenTypeIdentifierType,
    pub name: Seq<char>,
    pub definition_type: DefinitionTypeView,
}

pub enum KindView {
    Raw,
    Collective,
    Root(Seq<char>),
}

pub struct SetterView {
    pub name: Seq<char>,
    pub value: TokenView,
    pub range: Range<usize>,
}

pub enum StatementValueView {
    Property(PropertyView),
    Definition {
        name: Seq<char>,
        children: Seq<StatementView>,
        inherits: Seq<Seq<char>>,
        kind: KindView,
    },
    Object {
        name: Seq<char>,
        children: Seq<StatementView>,
        arguments: Seq<TokenView>,
        setters: Seq<SetterView>,
    },
    Header(Seq<char>),
    Include(Seq<char>),
}

pub struct StatementView {
    pub value: StatementValueView,
    pub range: Range<usize>,
}

impl View for Property {
    type V = PropertyView;

    open spec fn view(&self) -> PropertyView {
        PropertyView { internal_type: self.internal_type, name: self.name@, definition_type: self.definition_type@ }
    }
}

impl View for DefinitionType {
    type V = KindView;

    open spec fn view(&self) -> KindView {
        match self {
            DefinitionType::Raw => KindView::Raw,
            DefinitionType::Collective => KindView::Collective,
            DefinitionType::Root(name) => KindView::Root(name@),
        }
    }
}

impl View for Setter {
    type V = SetterView;

    open spec fn view(&self) -> SetterView {
        SetterView { name: self.name@, value: self.value@, range: self.range }
    }
}

pub open spec fn strings_view(v: Seq<String>) -> Seq<Seq<char>> {
    v.map_values(|s: String| s@)
}

pub open spec fn setters_view(v: Seq<Setter>) -> Seq<SetterView> {
    v.map_values(|s: Setter| s@)
}

/// The model of a statement tree.
pub open spec fn statement_view(s: Statement) -> StatementView
    decreases s,
{
    let value = match s.value {
        StatementValue::Property(p) => StatementValueView::Property(p@),
        StatementValue::Definition(d) => StatementValueView::Definition {
            name: d.name@,
            children: statements_view(d.children@),
            inherits: strings_view(d.inherits@),
            kind: d.definition_type@,
        },
        StatementValue::Object(o) => StatementValueView::Object {
            name: o.name@,
            children: statements_view(o.children@),
            arguments: tokens_view(o.arguments@),
            setters: setters_view(o.setters@),
        },
        StatementValue::Header(h) => StatementValueView::Header(h@),
        StatementValue::Include(p) => StatementValueView::Include(p@),
    };
    StatementView { value, range: s.range }
}

/// The models of a sequence of statement trees.
pub open spec fn statements_view(v: Seq<Statement>) -> Seq<StatementView>
    decreases v,
{
    if v.len() == 0 {
        Seq::empty()
    } else {
        statements_view(v.drop_last()).push(statement_view(v.last()))
    }
}


// The grammar

pub open spec fn statement_kind_name(v: StatementValueView) -> Seq<char> {
    match v {
        StatementValueView::Property(_) => "Property"@,
        StatementValueView::Definition { .. } => "Definition"@,
        StatementValueView::Object { .. } => "Object"@,
        StatementValueView::Header(_) => "Header"@,
        StatementValueView::Include(_) => "Include"@,
    }
}

pub open spec fn kind_of(t: TokenView) -> Seq<char> {
    kind_name(t.value)
}

/// Where an error that finds no token is anchored: the last top-level statement parsed,
/// or nowhere (start past end) before the first.
pub open spec fn fallback(statements: Seq<StatementView>) -> Range<usize> {
    if statements.len() == 0 {
        span(1, 0)
    } else {
        statements.last().range
    }
}

/// `acc` put before what `r` produced.
pub open spec fn prefixed<T>(acc: Seq<T>, r: Result<(Seq<T>, int), FaultView>) -> Result<(Seq<T>, int), FaultView> {
    match r {
        Ok((items, k)) => Ok((acc + items, k)),
        Err(e) => Err(e),
    }
}

/// Every rule that succeeds consumes at least one token, so this is never the
/// outcome; it only lets the rules recurse on positions that are seen to grow.
pub open spec fn no_progress(fb: Range<usize>) -> FaultView {
    ("parser made no progress"@, fb)
}

/// The arguments from position `j` to the closing parenthesis, and the position after it.
pub open spec fn arguments_from(ts: Seq<TokenView>, j: int, open: Range<usize>) -> Result<(Seq<TokenView>, int), FaultView>
    decreases ts.len() - j,
{
    if j < 0 || j >= ts.len() {
        Err(("expected Number, String, Bool, or type identifier, found nothing"@, open))
    } else if !(is_literal(ts[j].value) || ts[j].value is Identifier) {
        Err(("found "@ + kind_of(ts[j]) + ", expected Number, String, Bool, or type identifier"@, ts[j].range))
    } else if j + 1 >= ts.len() {
        Err(("expected ',', found nothing"@, ts[j].range))
    } else if ts[j + 1].value is ArgListDeliminator {
        prefixed(seq![ts[j]], arguments_from(ts, j + 2, open))
    } else if ts[j + 1].value is EndArgList {
        Ok((seq![ts[j]], j + 2))
    } else {
        Err(("found '"@ + kind_of(ts[j + 1]) + "', expected ','"@, ts[j + 1].range))
    }
}

/// An argument list at `i`: its arguments, the range of its `(`, and the position after it.
pub open spec fn arglist_at(ts: Seq<TokenView>, i: int, fb: Range<usize>) -> Result<(Seq<TokenView>, Range<usize>, int), FaultView> {
    if i < 0 || i >= ts.len() {
        Err(("expected start of argument list, found nothing"@, fb))
    } else if ts[i].value is StartArgList {
        match arguments_from(ts, i + 1, ts[i].range) {
            Ok((args, k)) => Ok((args, ts[i].range, k)),
            Err(e) => Err(e),
        }
    } else {
        Err(("expected start of argument list, found "@ + kind_of(ts[i]), ts[i].range))
    }
}

pub open spec fn is_generic(t: TokenView) -> bool {
    t.value is Identifier && t.value->Identifier_0 is Generic
}

/// What an `->` clause (or its absence) at `j` names as parents, and where the block starts.
pub open spec fn inherits_at(ts: Seq<TokenView>, j: int, fb: Range<usize>) -> Result<(Seq<Seq<char>>, int), FaultView>
    recommends
        0 <= j < ts.len(),
{
    match ts[j].value {
        TokenValueView::StartBlock => Ok((Seq::empty(), j)),
        TokenValueView::Inherits => if j + 1 >= ts.len() {
            Err(("expected an argument list or definition, found nothing"@, ts[j].range))
        } else {
            match ts[j + 1].value {
                TokenValueView::StartArgList => match arglist_at(ts, j + 1, fb) {
                    Ok((args, r, k)) => if forall|a: int| 0 <= a < args.len() ==> is_generic(#[trigger] args[a]) {
                        Ok((args.map_values(|t: TokenView| t.value->Identifier_0->Generic_0), k))
                    } else {
                        Err(("argument list of parents must only contain definitions"@, r))
                    },
                    Err(e) => Err(e),
                },
                TokenValueView::Identifier(IdentifierTypeView::Generic(parent)) => Ok((seq![parent], j + 2)),
                _ => Err(("expected an argument list or definition, found "@ + kind_of(ts[j + 1]), ts[j + 1].range)),
            }
        },
        _ => Err(("expected a '->' or '{', found '"@ + kind_of(ts[j]) + "'"@, ts[j].range)),
    }
}

/// The kind of a definition named `name` with the block `children`.
pub open spec fn definition_kind(
    name: Seq<char>,
    children: Seq<StatementView>,
    block_range: Range<usize>,
    stem: Option<Seq<char>>,
    range: Range<usize>,
) -> Result<KindView, FaultView> {
    if forall|k: int| 0 <= k < children.len() ==> (#[trigger] children[k]).value is Property {
        Ok(KindView::Raw)
    } else if forall|k: int| 0 <= k < children.len() ==> (#[trigger] children[k]).value is Object {
        if name == "root"@ {
            match stem {
                Some(stem) => Ok(KindView::Root(stem)),
                None => Err(("invalid file path"@, range)),
            }
        } else {
            Ok(KindView::Collective)
        }
    } else {
        Err(("a definition can only have all property definitions or all objects"@, block_range))
    }
}

/// A definition body holding both a property statement and an object statement is
/// neither a schema nor a collective: it is rejected.
pub proof fn mixed_body_rejected(
    name: Seq<char>,
    children: Seq<StatementView>,
    block_range: Range<usize>,
    stem: Option<Seq<char>>,
    range: Range<usize>,
    p: int,
    o: int,
)
    requires
        0 <= p < children.len(),
        0 <= o < children.len(),
        children[p].value is Property,
        children[o].value is Object,
    ensures
        definition_kind(name, children, block_range, stem, range) == Err::<KindView, FaultView>(
            ("a definition can only have all property definitions or all objects"@, block_range),
        ),
{
}

/// A placement definition (`@InlineProp("name", Type)` and the like) at `i`.
pub open spec fn property_at(ts: Seq<TokenView>, i: int, fb: Range<usize>) -> Result<(StatementView, int), FaultView>
    recommends
        0 <= i < ts.len(),
{
    match arglist_at(ts, i + 1, fb) {
        Err(e) => Err(e),
        Ok((args, r, k)) => if args.len() != 2 {
            Err(("expected only 2 arguments, found "@ + decimal_text(args.len()) + " args"@, r))
        } else if !(args[0].value is String) {
            Err(("expected String, found "@ + kind_of(args[0]), args[0].range))
        } else if !(args[1].value is Identifier && args[1].value->Identifier_0 is Type) {
            Err(("expected type identifier, found "@ + kind_of(args[1]), args[1].range))
        } else {
            Ok((
                StatementView {
                    value: StatementValueView::Property(
                        PropertyView {
                            internal_type: args[1].value->Identifier_0->Type_0,
                            name: args[0].value->String_0,
                            definition_type: ts[i].value->Definition_0,
                        },
                    ),
                    range: ts[i].range,
                },
                k,
            ))
        },
    }
}

/// A directive at `i`.
pub open spec fn directive_at(ts: Seq<TokenView>, i: int) -> Result<(StatementView, int), FaultView>
    recommends
        0 <= i < ts.len(),
{
    let range = ts[i].range;
    if i + 1 >= ts.len() {
        Err(("expected string, found nothing"@, range))
    } else if ts[i + 1].value is String {
        let arg = ts[i + 1].value->String_0;
        let value = match ts[i].value->Directive_0 {
            TokenDirectiveType::Header => StatementValueView::Header(arg),
            TokenDirectiveType::Include => StatementValueView::Include(arg),
        };
        Ok((StatementView { value, range }, i + 2))
    } else {
        Err(("expected string, found "@ + kind_of(ts[i + 1]), ts[i + 1].range))
    }
}

/// The setters from position `m` on, and the position after the last.
pub open spec fn setters_from(ts: Seq<TokenView>, m: int, fb: Range<usize>) -> Result<(Seq<SetterView>, int), FaultView>
    decreases ts.len() - m,
{
    if m < 0 || m >= ts.len() {
        Ok((Seq::empty(), m))
    } else {
        match ts[m].value {
            TokenValueView::Identifier(_) | TokenValueView::EndBlock => Ok((Seq::empty(), m)),
            TokenValueView::Setter(name) => match arglist_at(ts, m + 1, fb) {
                Err(e) => Err(e),
                Ok((args, r, k)) => if args.len() != 1 {
                    Err(("expected 1 argument, got "@ + decimal_text(args.len()), r))
                } else if !is_literal(args[0].value) {
                    Err(("expected Number, String, or Bool, found "@ + kind_of(args[0]), args[0].range))
                } else if m < k <= ts.len() {
                    prefixed(seq![SetterView { name, value: args[0], range: ts[m].range }], setters_from(ts, k, fb))
                } else {
                    Err(no_progress(fb))
                },
            },
            _ => Err(("expected setter, found "@ + kind_of(ts[m]), ts[m].range)),
        }
    }
}

pub open spec fn object_with_setters(
    ts: Seq<TokenView>,
    range: Range<usize>,
    name: Seq<char>,
    arguments: Seq<TokenView>,
    children: Seq<StatementView>,
    m: int,
    fb: Range<usize>,
) -> Result<(StatementView, int), FaultView> {
    match setters_from(ts, m, fb) {
        Err(e) => Err(e),
        Ok((setters, end)) => Ok((
            StatementView { value: StatementValueView::Object { name, children, arguments, setters }, range },
            end,
        )),
    }
}

/// A statement at `i`; `fb` anchors errors that find no token, `stem` names root documents.
pub open spec fn statement_at(ts: Seq<TokenView>, i: int, fb: Range<usize>, stem: Option<Seq<char>>) -> Result<(StatementView, int), FaultView>
    decreases ts.len() - i, 3int,
{
    if i < 0 || i >= ts.len() {
        Err(("expected definition, directive, or identifier, found nothing"@, fb))
    } else {
        match ts[i].value {
            TokenValueView::Definition(DefinitionTypeView::Object(_)) => definition_at(ts, i, fb, stem),
            TokenValueView::Definition(_) => property_at(ts, i, fb),
            TokenValueView::Directive(_) => directive_at(ts, i),
            TokenValueView::Identifier(_) => object_at(ts, i, fb, stem),
            _ => Err(("unexpected "@ + kind_of(ts[i]), ts[i].range)),
        }
    }
}

/// An object definition (`@name ... { ... }`) at `i`.
pub open spec fn definition_at(ts: Seq<TokenView>, i: int, fb: Range<usize>, stem: Option<Seq<char>>) -> Result<(StatementView, int), FaultView>
    decreases ts.len() - i, 2int,
{
    if i < 0 || i >= ts.len() {
        Err(no_progress(fb))
    } else {
        let range = ts[i].range;
        let name = ts[i].value->Definition_0->Object_0;
        if i + 1 >= ts.len() {
            Err(("expected block or inherit statement, found nothing"@, range))
        } else {
            match inherits_at(ts, i + 1, fb) {
                Err(e) => Err(e),
                Ok((inherits, k)) => if i < k <= ts.len() {
                    match block_at(ts, k, fb, stem) {
                        Err(e) => Err(e),
                        Ok((children, block_range, m)) => match definition_kind(name, children, block_range, stem, range) {
                            Err(e) => Err(e),
                            Ok(kind) => Ok((
                                StatementView { value: StatementValueView::Definition { name, children, inherits, kind }, range },
                                m,
                            )),
                        },
                    }
                } else {
                    Err(no_progress(fb))
                },
            }
        }
    }
}

/// An object (`name (args)? { children }? .setter(value)*`) at `i`.
pub open spec fn object_at(ts: Seq<TokenView>, i: int, fb: Range<usize>, stem: Option<Seq<char>>) -> Result<(StatementView, int), FaultView>
    decreases ts.len() - i, 2int,
{
    if i < 0 || i >= ts.len() {
        Err(no_progress(fb))
    } else {
        let range = ts[i].range;
        match ts[i].value->Identifier_0 {
            IdentifierTypeView::Type(_) => Err(("expected generic identifier, found type identifier"@, range)),
            IdentifierTypeView::Generic(name) => {
                let j = i + 1;
                if j >= ts.len() {
                    Err(("expected argument list or block, found nothing"@, range))
                } else if ts[j].value is StartArgList {
                    match arglist_at(ts, j, fb) {
                        Err(e) => Err(e),
                        Ok((args, _, k)) => if k >= ts.len() {
                            Err(("expected block, found nothing"@, ts[j].range))
                        } else if ts[k].value is StartBlock {
                            if i < k {
                                match block_at(ts, k, fb, stem) {
                                    Err(e) => Err(e),
                                    Ok((children, _, m)) => object_with_setters(ts, range, name, args, children, m, fb),
                                }
                            } else {
                                Err(no_progress(fb))
                            }
                        } else {
                            object_with_setters(ts, range, name, args, Seq::empty(), k, fb)
                        },
                    }
                } else if ts[j].value is StartBlock {
                    match block_at(ts, j, fb, stem) {
                        Err(e) => Err(e),
                        Ok((children, _, m)) => object_with_setters(ts, range, name, Seq::empty(), children, m, fb),
                    }
                } else {
                    Err(("expected the start of an argument list or block, found '"@ + kind_of(ts[j]) + "'"@, ts[j].range))
                }
            },
        }
    }
}

/// A block at `i`: its statements, the range of its `{`, and the position after its `}`.
pub open spec fn block_at(ts: Seq<TokenView>, i: int, fb: Range<usize>, stem: Option<Seq<char>>) -> Result<(Seq<StatementView>, Range<usize>, int), FaultView>
    decreases ts.len() - i, 1int,
{
    if i < 0 || i >= ts.len() {
        Err(("expected the start of a block, found nothing"@, fb))
    } else if ts[i].value is StartBlock {
        match block_items_from(ts, i + 1, fb, stem) {
            Ok((items, m)) => Ok((items, ts[i].range, m)),
            Err(e) => Err(e),
        }
    } else {
        Err(("expected the start of a block, found "@ + kind_of(ts[i]), ts[i].range))
    }
}

/// The statements of a block from position `j` to its `}`, and the position after it.
pub open spec fn block_items_from(ts: Seq<TokenView>, j: int, fb: Range<usize>, stem: Option<Seq<char>>) -> Result<(Seq<StatementView>, int), FaultView>
    decreases ts.len() - j, 4int,
{
    if j < 0 || j >= ts.len() {
        Err(("expected the end of a block, found nothing"@, fb))
    } else if ts[j].value is EndBlock {
        Ok((Seq::empty(), j + 1))
    } else {
        match statement_at(ts, j, fb, stem) {
            Err(e) => Err(e),
            Ok((st, k)) => if st.value is Property || st.value is Object {
                if j < k <= ts.len() {
                    prefixed(seq![st], block_items_from(ts, k, fb, stem))
                } else {
                    Err(no_progress(fb))
                }
            } else {
                Err((
                    "found "@ + statement_kind_name(st.value) + " inside block. Only properties and objects are allowed here."@,
                    st.range,
                ))
            },
        }
    }
}

/// The top-level statements from position `i` on.
#[verifier::opaque]
pub open spec fn parse_from(ts: Seq<TokenView>, i: int, fb: Range<usize>, stem: Option<Seq<char>>) -> Result<Seq<StatementView>, FaultView>
    decreases ts.len() - i,
{
    if i < 0 || i >= ts.len() {
        Ok(Seq::empty())
    } else {
        match statement_at(ts, i, fb, stem) {
            Err(e) => Err(e),
            Ok((st, k)) => if st.value is Definition || st.value is Header || st.value is Include {
                if i < k <= ts.len() {
                    match parse_from(ts, k, st.range, stem) {
                        Ok(rest) => Ok(seq![st] + rest),
                        Err(e) => Err(e),
                    }
                } else {
                    Err(no_progress(fb))
                }
            } else {
                Err((
                    "found "@ + statement_kind_name(st.value) + " on top level. Only object definitions and directives are allowed here."@,
                    st.range,
                ))
            },
        }
    }
}


// Parser

/// `acc` followed by the outcome `r`.
pub open spec fn joined(acc: Seq<StatementView>, r: Result<Seq<StatementView>, FaultView>) -> Result<Seq<StatementView>, FaultView> {
    match r {
        Ok(sts) => Ok(acc + sts),
        Err(e) => Err(e),
    }
}

proof fn lemma_parse_from_fails(ts: Seq<TokenView>, i: int, fb: Range<usize>, stem: Option<Seq<char>>)
    requires
        0 <= i < ts.len(),
        statement_at(ts, i, fb, stem) is Err,
    ensures
        parse_from(ts, i, fb, stem) == Err::<Seq<StatementView>, FaultView>(statement_at(ts, i, fb, stem)->Err_0),
{
    reveal(parse_from);
}

proof fn lemma_parse_from_step(ts: Seq<TokenView>, i: int, fb: Range<usize>, stem: Option<Seq<char>>, st: StatementView, k: int)
    requires
        0 <= i < k <= ts.len(),
        statement_at(ts, i, fb, stem) == Ok::<(StatementView, int), FaultView>((st, k)),
    ensures
        parse_from(ts, i, fb, stem) == if st.value is Definition || st.value is Header || st.value is Include {
            match parse_from(ts, k, st.range, stem) {
                Ok(rest) => Ok(seq![st] + rest),
                Err(e) => Err(e),
            }
        } else {
            Err((
                "found "@ + statement_kind_name(st.value) + " on top level. Only object definitions and directives are allowed here."@,
                st.range,
            ))
        },
{
    reveal(parse_from);
}

/// The top-level statements of a whole token sequence from a file whose root
/// documents are named `stem`, or the first syntax error.
pub open spec fn parse_spec(ts: Seq<TokenView>, stem: Option<Seq<char>>) -> Result<Seq<StatementView>, FaultView> {
    parse_from(ts, 0, fallback(Seq::empty()), stem)
}

/// What `std::path::Path::file_stem` gives for a path: its last component without
/// the extension, or nothing for a path without a file name.
pub uninterp spec fn file_stem_of(path: Seq<char>) -> Option<Seq<char>>;

/// Relies on `std::path::Path::file_stem`, which depends on the path's text alone.
#[verifier::external_body]
fn file_stem(path: &str) -> (r: Option<String>)
    ensures
        r is Some <==> file_stem_of(path@) is Some,
        r is Some ==> r->0@ == file_stem_of(path@)->0,
{
    let stem = std::path::Path::new(path).file_stem()?;
    Some(stem.to_str()?.to_string())
}

pub proof fn lemma_statements_view(v: Seq<Statement>)
    ensures
        statements_view(v).len() == v.len(),
        forall|k: int| 0 <= k < v.len() ==> #[trigger] statements_view(v)[k] == statement_view(v[k]),
    decreases v.len(),
{
    if v.len() > 0 {
        lemma_statements_view(v.drop_last());
        assert forall|k: int| 0 <= k < v.len() implies #[trigger] statements_view(v)[k] == statement_view(v[k]) by {
            if k < v.len() - 1 {
                assert(v.drop_last()[k] == v[k]);
            }
        }
    }
}

proof fn lemma_statements_view_push(v: Seq<Statement>, s: Statement)
    ensures
        statements_view(v.push(s)) == statements_view(v).push(statement_view(s)),
{
    assert(v.push(s).drop_last() =~= v);
}

proof fn lemma_prefixed<T>(a: Seq<T>, b: Seq<T>, r: Result<(Seq<T>, int), FaultView>)
    ensures
        prefixed(a, prefixed(b, r)) == prefixed(a + b, r),
{
    match r {
        Ok((items, k)) => {
            assert(a + (b + items) =~= (a + b) + items);
        },
        Err(_) => {},
    }
}

fn text(a: &str) -> (r: String)
    ensures
        r@ == a@,
{
    String::from_str(a)
}

fn text2(a: &str, b: &str) -> (r: String)
    ensures
        r@ == a@ + b@,
{
    let mut r = String::from_str(a);
    r.append(b);
    r
}

fn text3(a: &str, b: &str, c: &str) -> (r: String)
    ensures
        r@ == a@ + b@ + c@,
{
    let mut r = String::from_str(a);
    r.append(b);
    r.append(c);
    r
}

fn copy_range(r: &Range<usize>) -> (c: Range<usize>)
    ensures
        c == *r,
{
    Range { start: r.start, end: r.end }
}

fn is_literal_value(v: &TokenValue) -> (r: bool)
    ensures
        r == is_literal(v@),
{
    match v {
        TokenValue::String(_) | TokenValue::Number(_) | TokenValue::Bool(_) => true,
        _ => false,
    }
}

/// The names of the parents listed, if each argument is a generic identifier.
fn parent_names(args: &Vec<Token>) -> (r: Option<Vec<String>>)
    ensures
        r is Some <==> forall|a: int| 0 <= a < args@.len() ==> is_generic(#[trigger] tokens_view(args@)[a]),
        r is Some ==> strings_view(r->0@) == tokens_view(args@).map_values(|t: TokenView| t.value->Identifier_0->Generic_0),
{
    let ghost av = tokens_view(args@);
    let mut names: Vec<String> = Vec::new();
    let mut k: usize = 0;
    while k < args.len()
        invariant
            av == tokens_view(args@),
            k <= args@.len(),
            forall|a: int| 0 <= a < k ==> is_generic(#[trigger] av[a]),
            strings_view(names@) == av.subrange(0, k as int).map_values(|t: TokenView| t.value->Identifier_0->Generic_0),
        decreases args@.len() - k,
    {
        assert(av[k as int] == args@[k as int]@);
        let ghost before = strings_view(names@);
        match &args[k].value {
            TokenValue::Identifier(TokenIdentifierType::Generic(p)) => {
                names.push(p.clone());
                assert(strings_view(names@) =~= before.push(p@));
            },
            _ => {
                return None;
            },
        }
        assert(av.subrange(0, k + 1).map_values(|t: TokenView| t.value->Identifier_0->Generic_0)
            =~= av.subrange(0, k as int).map_values(|t: TokenView| t.value->Identifier_0->Generic_0).push(
            av[k as int].value->Identifier_0->Generic_0));
        k += 1;
    }
    assert(av.subrange(0, k as int) =~= av);
    Some(names)
}

impl Statement {
    /// The name of the statement's kind, as used in messages.
    pub fn to_string(&self) -> (r: &'static str)
        ensures
            r@ == statement_kind_name(statement_view(*self).value),
    {
        match &self.value {
            StatementValue::Property(_) => "Property",
            StatementValue::Definition(_) => "Definition",
            StatementValue::Object(_) => "Object",
            StatementValue::Header(_) => "Header",
            StatementValue::Include(_) => "Include",
        }
    }
}

pub struct Parser {
    pub statements: Vec<Statement>,
    index: usize,
    tokens: Vec<Token>,
    filename: String,
    stem: Option<String>,
}

impl Parser {
    /// The tokens being parsed.
    pub closed spec fn input(&self) -> Seq<TokenView> {
        tokens_view(self.tokens@)
    }

    /// Where parsing goes on.
    pub closed spec fn position(&self) -> int {
        self.index as int
    }

    /// The top-level statements parsed so far.
    pub closed spec fn parsed(&self) -> Seq<StatementView> {
        statements_view(self.statements@)
    }

    /// The name given to a root document of this file.
    pub closed spec fn output_name(&self) -> Option<Seq<char>> {
        match self.stem {
            Some(s) => Some(s@),
            None => None,
        }
    }

    pub closed spec fn wf(&self) -> bool {
        &&& self.index <= self.tokens@.len()
        &&& self.tokens@.len() < usize::MAX
    }

    closed spec fn fb(&self) -> Range<usize> {
        fallback(self.parsed())
    }

    closed spec fn kept(&self, before: &Self) -> bool {
        &&& self.wf()
        &&& self.tokens == before.tokens
        &&& self.statements == before.statements
        &&& self.stem == before.stem
        &&& self.filename == before.filename
    }

    /// `r` is what `expected` says, and the position moved forward to where it says.
    closed spec fn gave(&self, before: &Self, r: Result<Statement, Fault>, expected: Result<(StatementView, int), FaultView>) -> bool {
        &&& self.kept(before)
        &&& match expected {
            Ok((v, k)) => r is Ok && statement_view(r->Ok_0) == v && self.index == k && before.index < k,
            Err(e) => r is Err && fault_view(r->Err_0) == e,
        }
    }

    fn fallback_range(&self) -> (r: Range<usize>)
        ensures
            r == self.fb(),
    {
        proof {
            lemma_statements_view(self.statements@);
        }
        if self.statements.len() == 0 {
            Range { start: 1, end: 0 }
        } else {
            copy_range(&self.statements[self.statements.len() - 1].range)
        }
    }

    /// A parser over `tokens` from the file `filename`, with nothing parsed yet.
    pub fn new(tokens: Vec<Token>, filename: String) -> (r: Parser)
        requires
            tokens@.len() < usize::MAX,
        ensures
            r.wf(),
            r.input() == tokens_view(tokens@),
            r.position() == 0,
            r.parsed() == Seq::<StatementView>::empty(),
            r.output_name() == file_stem_of(filename@),
    {
        let stem = file_stem(filename.as_str());
        Parser::with_output_name(tokens, filename, stem)
    }

    /// A parser over `tokens` from the file `filename` whose root documents are
    /// named `stem` (a root definition is an error when there is none).
    pub fn with_output_name(tokens: Vec<Token>, filename: String, stem: Option<String>) -> (r: Parser)
        requires
            tokens@.len() < usize::MAX,
        ensures
            r.wf(),
            r.input() == tokens_view(tokens@),
            r.position() == 0,
            r.parsed() == Seq::<StatementView>::empty(),
            r.output_name() == match stem {
                Some(s) => Some(s@),
                None => None::<Seq<char>>,
            },
    {
        let r = Parser { statements: Vec::new(), index: 0, tokens, filename, stem };
        assert(r.parsed() =~= Seq::<StatementView>::empty());
        r
    }

    /// Parses the remaining tokens as top-level statements, appending them; the
    /// first error stops it.
    pub fn parse(&mut self) -> (r: Result<(), Fault>)
        requires
            old(self).wf(),
        ensures
            final(self).wf(),
            final(self).input() == old(self).input(),
            final(self).output_name() == old(self).output_name(),
            match parse_from(old(self).input(), old(self).position(), fallback(old(self).parsed()), old(self).output_name()) {
                Ok(sts) => r is Ok && final(self).parsed() == old(self).parsed() + sts,
                Err(e) => r is Err && fault_view(r->Err_0) == e,
            },
    {
        let ghost ts = self.input();
        let ghost stem = self.output_name();
        loop
            invariant
                self.wf(),
                ts == self.input(),
                stem == self.output_name(),
                ts == old(self).input(),
                stem == old(self).output_name(),
                joined(self.parsed(), parse_from(ts, self.index as int, fallback(self.parsed()), stem))
                    == joined(old(self).parsed(), parse_from(ts, old(self).index as int, fallback(old(self).parsed()), stem)),
            decreases ts.len() - self.index,
        {
            if self.index >= self.tokens.len() {
                proof {
                    reveal(parse_from);
                }
                assert(self.parsed() + Seq::<StatementView>::empty() =~= self.parsed());
                return Ok(());
            }
            let ghost i = self.index as int;
            let ghost fb = fallback(self.parsed());
            let statement = match self.parse_statement() {
                Ok(s) => s,
                Err(e) => {
                    proof {
                        lemma_parse_from_fails(ts, i, fb, stem);
                    }
                    return Err(e);
                },
            };
            let ghost st = statement_view(statement);
            let ghost k = self.index as int;
            let allowed = match &statement.value {
                StatementValue::Definition(_) | StatementValue::Header(_) | StatementValue::Include(_) => true,
                _ => false,
            };
            proof {
                lemma_parse_from_step(ts, i, fb, stem, st, k);
            }
            if !allowed {
                return Err((
                    text3("found ", statement.to_string(), " on top level. Only object definitions and directives are allowed here."),
                    copy_range(&statement.range),
                ));
            }
            let ghost acc = self.parsed();
            proof {
                lemma_statements_view_push(self.statements@, statement);
            }
            self.statements.push(statement);
            proof {
                assert(self.parsed() == acc.push(st));
                match parse_from(ts, k, st.range, stem) {
                    Ok(rest) => {
                        assert(acc + (seq![st] + rest) =~= acc.push(st) + rest);
                    },
                    Err(_) => {},
                }
            }
        }
    }

    // Parsing Functions

    fn arglist(&mut self) -> (r: Result<(Vec<Token>, Range<usize>), Fault>)
        requires
            old(self).wf(),
        ensures
            final(self).kept(old(self)),
            match arglist_at(old(self).input(), old(self).index as int, old(self).fb()) {
                Ok((args, open, k)) => r is Ok && tokens_view(r->Ok_0.0@) == args && r->Ok_0.1 == open
                    && final(self).index == k && old(self).index < k,
                Err(e) => r is Err && fault_view(r->Err_0) == e,
            },
            final(self).index >= old(self).index,
    {
        let ghost ts = self.input();
        let i = self.index;
        let n = self.tokens.len();
        if i >= n {
            return Err((text("expected start of argument list, found nothing"), self.fallback_range()));
        }
        assert(ts[i as int] == self.tokens@[i as int]@);
        let open = copy_range(&self.tokens[i].range);
        match self.tokens[i].value {
            TokenValue::StartArgList => {},
            _ => {
                return Err((text2("expected start of argument list, found ", self.tokens[i].to_string()), open));
            },
        }
        let mut args: Vec<Token> = Vec::new();
        let mut j = i + 1;
        loop
            invariant_except_break
                prefixed(tokens_view(args@), arguments_from(ts, j as int, open)) == arguments_from(ts, i + 1, open),
            invariant
                self.kept(old(self)),
                self.index == i,
                old(self).index == i,
                ts == self.input(),
                n == self.tokens@.len(),
                i < j <= n,
                open == ts[i as int].range,
                ts[i as int].value is StartArgList,
            ensures
                arguments_from(ts, i + 1, open) == Ok::<(Seq<TokenView>, int), FaultView>((tokens_view(args@), j as int)),
                i < j <= n,
            decreases n - j,
        {
            if j >= n {
                return Err((text("expected Number, String, Bool, or type identifier, found nothing"), open));
            }
            assert(ts[j as int] == self.tokens@[j as int]@);
            let t = &self.tokens[j];
            let accepted = match t.value {
                TokenValue::Identifier(_) => true,
                _ => is_literal_value(&t.value),
            };
            if !accepted {
                return Err((text3("found ", t.to_string(), ", expected Number, String, Bool, or type identifier"), copy_range(&t.range)));
            }
            if j + 1 >= n {
                return Err((text("expected ',', found nothing"), copy_range(&t.range)));
            }
            let ghost acc = tokens_view(args@);
            args.push(t.clone());
            assert(tokens_view(args@) =~= acc + seq![ts[j as int]]);
            assert(ts[j + 1] == self.tokens@[j + 1]@);
            let next = &self.tokens[j + 1];
            match next.value {
                TokenValue::ArgListDeliminator => {
                    proof {
                        lemma_prefixed(acc, seq![ts[j as int]], arguments_from(ts, j + 2, open));
                    }
                    j = j + 2;
                },
                TokenValue::EndArgList => {
                    j = j + 2;
                    break ;
                },
                _ => {
                    return Err((text3("found '", next.to_string(), "', expected ','"), copy_range(&next.range)));
                },
            }
        }
        self.index = j;
        Ok((args, open))
    }

    fn directive(&mut self) -> (r: Result<Statement, Fault>)
        requires
            old(self).wf(),
            old(self).index < old(self).tokens@.len(),
            old(self).input()[old(self).index as int].value is Directive,
        ensures
            final(self).gave(old(self), r, directive_at(old(self).input(), old(self).index as int)),
    {
        let ghost ts = self.input();
        let i = self.index;
        assert(ts[i as int] == self.tokens@[i as int]@);
        let range = copy_range(&self.tokens[i].range);
        let directive_type = match self.tokens[i].value {
            TokenValue::Directive(d) => d,
            _ => TokenDirectiveType::Header,
        };
        if i + 1 >= self.tokens.len() {
            return Err((text("expected string, found nothing"), range));
        }
        assert(ts[i + 1] == self.tokens@[i + 1]@);
        let token = &self.tokens[i + 1];
        let value = match &token.value {
            TokenValue::String(arg) => match directive_type {
                TokenDirectiveType::Header => StatementValue::Header(arg.clone()),
                TokenDirectiveType::Include => StatementValue::Include(arg.clone()),
            },
            _ => {
                return Err((text2("expected string, found ", token.to_string()), copy_range(&token.range)));
            },
        };
        self.index = i + 2;
        Ok(Statement { value, range })
    }

    fn property(&mut self) -> (r: Result<Statement, Fault>)
        requires
            old(self).wf(),
            old(self).index < old(self).tokens@.len(),
            old(self).input()[old(self).index as int].value is Definition,
        ensures
            final(self).gave(old(self), r, property_at(old(self).input(), old(self).index as int, old(self).fb())),
    {
        let ghost ts = self.input();
        let i = self.index;
        assert(ts[i as int] == self.tokens@[i as int]@);
        let range = copy_range(&self.tokens[i].range);
        let definition_type = match &self.tokens[i].value {
            TokenValue::Definition(d) => d.clone(),
            _ => TokenDefinitionType::InlineProp,
        };
        self.index = i + 1;
        let (args, open) = match self.arglist() {
            Ok(a) => a,
            Err(e) => return Err(e),
        };
        if args.len() != 2 {
            return Err((text3("expected only 2 arguments, found ", usize_to_decimal(args.len()).as_str(), " args"), open));
        }
        assert(tokens_view(args@)[0] == args@[0]@);
        assert(tokens_view(args@)[1] == args@[1]@);
        match &args[0].value {
            TokenValue::String(name) => match &args[1].value {
                TokenValue::Identifier(TokenIdentifierType::Type(t)) => Ok(
                    Statement {
                        value: StatementValue::Property(Property { name: name.clone(), internal_type: *t, definition_type }),
                        range,
                    },
                ),
                _ => Err((text2("expected type identifier, found ", args[1].to_string()), copy_range(&args[1].range))),
            },
            _ => Err((text2("expected String, found ", args[0].to_string()), copy_range(&args[0].range))),
        }
    }

    fn block(&mut self) -> (r: Result<(Vec<Statement>, Range<usize>), Fault>)
        requires
            old(self).wf(),
        ensures
            final(self).kept(old(self)),
            match block_at(old(self).input(), old(self).index as int, old(self).fb(), old(self).output_name()) {
                Ok((items, open, m)) => r is Ok && statements_view(r->Ok_0.0@) == items && r->Ok_0.1 == open
                    && final(self).index == m && old(self).index < m,
                Err(e) => r is Err && fault_view(r->Err_0) == e,
            },
        decreases self.tokens@.len() - self.index, 1int,
    {
        let ghost ts = self.input();
        let ghost fb = self.fb();
        let ghost stem = self.output_name();
        let i = self.index;
        let n = self.tokens.len();
        if i >= n {
            return Err((text("expected the start of a block, found nothing"), self.fallback_range()));
        }
        assert(ts[i as int] == self.tokens@[i as int]@);
        let open = copy_range(&self.tokens[i].range);
        match self.tokens[i].value {
            TokenValue::StartBlock => {},
            _ => {
                return Err((text2("expected the start of a block, found ", self.tokens[i].to_string()), open));
            },
        }
        self.index = i + 1;
        let mut statements: Vec<Statement> = Vec::new();
        loop
            invariant_except_break
                prefixed(statements_view(statements@), block_items_from(ts, self.index as int, fb, stem))
                    == block_items_from(ts, i + 1, fb, stem),
            invariant
                self.wf(),
                self.tokens == old(self).tokens,
                self.statements == old(self).statements,
                self.stem == old(self).stem,
                self.filename == old(self).filename,
                ts == self.input(),
                fb == self.fb(),
                stem == self.output_name(),
                ts == old(self).input(),
                fb == old(self).fb(),
                stem == old(self).output_name(),
                i == old(self).index,
                ts[i as int].value is StartBlock,
                open == ts[i as int].range,
                n == self.tokens@.len(),
                i < self.index <= n,
            ensures
                block_items_from(ts, i + 1, fb, stem) == Ok::<(Seq<StatementView>, int), FaultView>(
                    (statements_view(statements@), self.index as int),
                ),
                i < self.index <= n,
            decreases n - self.index,
        {
            let j = self.index;
            if j >= n {
                return Err((text("expected the end of a block, found nothing"), self.fallback_range()));
            }
            assert(ts[j as int] == self.tokens@[j as int]@);
            let at_end = match self.tokens[j].value {
                TokenValue::EndBlock => true,
                _ => false,
            };
            if at_end {
                self.index = j + 1;
                assert(statements_view(statements@) + Seq::<StatementView>::empty() =~= statements_view(statements@));
                break ;
            }
            let statement = match self.parse_statement() {
                Ok(s) => s,
                Err(e) => return Err(e),
            };
            let allowed = match &statement.value {
                StatementValue::Property(_) | StatementValue::Object(_) => true,
                _ => false,
            };
            if !allowed {
                return Err((
                    text3("found ", statement.to_string(), " inside block. Only properties and objects are allowed here."),
                    copy_range(&statement.range),
                ));
            }
            let ghost acc = statements_view(statements@);
            let ghost st = statement_view(statement);
            proof {
                lemma_statements_view_push(statements@, statement);
                lemma_prefixed(acc, seq![st], block_items_from(ts, self.index as int, fb, stem));
                assert(acc.push(st) =~= acc + seq![st]);
            }
            statements.push(statement);
        }
        Ok((statements, open))
    }

    fn definition(&mut self) -> (r: Result<Statement, Fault>)
        requires
            old(self).wf(),
            old(self).index < old(self).tokens@.len(),
            old(self).input()[old(self).index as int].value is Definition,
            old(self).input()[old(self).index as int].value->Definition_0 is Object,
        ensures
            final(self).gave(old(self), r, definition_at(old(self).input(), old(self).index as int, old(self).fb(), old(self).output_name())),
        decreases self.tokens@.len() - self.index, 2int,
    {
        let ghost ts = self.input();
        let ghost fb = self.fb();
        let i = self.index;
        let n = self.tokens.len();
        assert(ts[i as int] == self.tokens@[i as int]@);
        let range = copy_range(&self.tokens[i].range);
        let name = match &self.tokens[i].value {
            TokenValue::Definition(TokenDefinitionType::Object(name)) => name.clone(),
            _ => String::new(),
        };
        if i + 1 >= n {
            return Err((text("expected block or inherit statement, found nothing"), range));
        }
        let j = i + 1;
        assert(ts[j as int] == self.tokens@[j as int]@);
        let mut inherits: Vec<String> = Vec::new();
        let head: u8 = match self.tokens[j].value {
            TokenValue::StartBlock => 0,
            TokenValue::Inherits => 1,
            _ => 2,
        };
        if head == 0 {
            self.index = j;
            assert(strings_view(inherits@) =~= Seq::<Seq<char>>::empty());
        } else if head == 1 {
            if j + 1 >= n {
                return Err((text("expected an argument list or definition, found nothing"), copy_range(&self.tokens[j].range)));
            }
            assert(ts[j + 1] == self.tokens@[j + 1]@);
            let parent: u8 = match &self.tokens[j + 1].value {
                TokenValue::StartArgList => 0,
                TokenValue::Identifier(TokenIdentifierType::Generic(_)) => 1,
                _ => 2,
            };
            if parent == 0 {
                self.index = j + 1;
                let (args, open) = match self.arglist() {
                    Ok(a) => a,
                    Err(e) => return Err(e),
                };
                inherits = match parent_names(&args) {
                    Some(names) => names,
                    None => {
                        return Err((text("argument list of parents must only contain definitions"), open));
                    },
                };
            } else if parent == 1 {
                match &self.tokens[j + 1].value {
                    TokenValue::Identifier(TokenIdentifierType::Generic(p)) => {
                        inherits.push(p.clone());
                    },
                    _ => {},
                }
                assert(strings_view(inherits@) =~= seq![ts[j + 1].value->Identifier_0->Generic_0]);
                self.index = j + 2;
            } else {
                return Err((
                    text2("expected an argument list or definition, found ", self.tokens[j + 1].to_string()),
                    copy_range(&self.tokens[j + 1].range),
                ));
            }
        } else {
            return Err((text3("expected a '->' or '{', found '", self.tokens[j].to_string(), "'"), copy_range(&self.tokens[j].range)));
        }
        let (children, block_range) = match self.block() {
            Ok(b) => b,
            Err(e) => return Err(e),
        };
        let ghost cv = statements_view(children@);
        proof {
            lemma_statements_view(children@);
        }
        let mut all_properties = true;
        let mut all_objects = true;
        let mut k: usize = 0;
        while k < children.len()
            invariant
                cv == statements_view(children@),
                cv.len() == children@.len(),
                forall|a: int| 0 <= a < cv.len() ==> cv[a] == statement_view(#[trigger] children@[a]),
                k <= children@.len(),
                all_properties == (forall|a: int| 0 <= a < k ==> (#[trigger] cv[a]).value is Property),
                all_objects == (forall|a: int| 0 <= a < k ==> (#[trigger] cv[a]).value is Object),
            decreases children@.len() - k,
        {
            assert(cv[k as int] == statement_view(children@[k as int]));
            match &children[k].value {
                StatementValue::Property(_) => {
                    all_objects = false;
                },
                StatementValue::Object(_) => {
                    all_properties = false;
                },
                _ => {
                    all_properties = false;
                    all_objects = false;
                },
            }
            k += 1;
        }
        let definition_type = if all_properties {
            DefinitionType::Raw
        } else if all_objects {
            if name == text("root") {
                match &self.stem {
                    Some(stem) => DefinitionType::Root(stem.clone()),
                    None => {
                        return Err((text("invalid file path"), range));
                    },
                }
            } else {
                DefinitionType::Collective
            }
        } else {
            return Err((text("a definition can only have all property definitions or all objects"), block_range));
        };
        Ok(Statement {
            value: StatementValue::Definition(Definition { name, children, inherits, definition_type }),
            range,
        })
    }

    fn object(&mut self) -> (r: Result<Statement, Fault>)
        requires
            old(self).wf(),
            old(self).index < old(self).tokens@.len(),
            old(self).input()[old(self).index as int].value is Identifier,
        ensures
            final(self).gave(old(self), r, object_at(old(self).input(), old(self).index as int, old(self).fb(), old(self).output_name())),
        decreases self.tokens@.len() - self.index, 2int,
    {
        let ghost ts = self.input();
        let ghost fb = self.fb();
        let i = self.index;
        let n = self.tokens.len();
        assert(ts[i as int] == self.tokens@[i as int]@);
        let range = copy_range(&self.tokens[i].range);
        let name = match &self.tokens[i].value {
            TokenValue::Identifier(TokenIdentifierType::Generic(name)) => name.clone(),
            _ => {
                return Err((text("expected generic identifier, found type identifier"), range));
            },
        };
        let j = i + 1;
        if j >= n {
            return Err((text("expected argument list or block, found nothing"), range));
        }
        assert(ts[j as int] == self.tokens@[j as int]@);
        let mut arguments: Vec<Token> = Vec::new();
        let mut children: Vec<Statement> = Vec::new();
        let head: u8 = match self.tokens[j].value {
            TokenValue::StartArgList => 0,
            TokenValue::StartBlock => 1,
            _ => 2,
        };
        if head == 0 {
            let token_range = copy_range(&self.tokens[j].range);
            self.index = j;
            let (args, _) = match self.arglist() {
                Ok(a) => a,
                Err(e) => return Err(e),
            };
            arguments = args;
            let k = self.index;
            if k >= n {
                return Err((text("expected block, found nothing"), token_range));
            }
            assert(ts[k as int] == self.tokens@[k as int]@);
            let opens_block = match self.tokens[k].value {
                TokenValue::StartBlock => true,
                _ => false,
            };
            if opens_block {
                let (c, _) = match self.block() {
                    Ok(b) => b,
                    Err(e) => return Err(e),
                };
                children = c;
            } else {
                assert(statements_view(children@) =~= Seq::<StatementView>::empty());
            }
        } else if head == 1 {
            self.index = j;
            let (c, _) = match self.block() {
                Ok(b) => b,
                Err(e) => return Err(e),
            };
            children = c;
            assert(tokens_view(arguments@) =~= Seq::<TokenView>::empty());
        } else {
            return Err((
                text3("expected the start of an argument list or block, found '", self.tokens[j].to_string(), "'"),
                copy_range(&self.tokens[j].range),
            ));
        }
        let setters = match self.setters() {
            Ok(setters) => setters,
            Err(e) => return Err(e),
        };
        Ok(Statement { value: StatementValue::Object(Object { arguments, name, children, setters }), range })
    }

    fn setters(&mut self) -> (r: Result<Vec<Setter>, Fault>)
        requires
            old(self).wf(),
        ensures
            final(self).kept(old(self)),
            match setters_from(old(self).input(), old(self).index as int, old(self).fb()) {
                Ok((setters, m)) => r is Ok && setters_view(r->Ok_0@) == setters && final(self).index == m,
                Err(e) => r is Err && fault_view(r->Err_0) == e,
            },
            final(self).index >= old(self).index,
    {
        let ghost ts = self.input();
        let ghost fb = self.fb();
        let n = self.tokens.len();
        let m0 = self.index;
        let mut setters: Vec<Setter> = Vec::new();
        loop
            invariant_except_break
                prefixed(setters_view(setters@), setters_from(ts, self.index as int, fb)) == setters_from(ts, m0 as int, fb),
            invariant
                self.kept(old(self)),
                ts == self.input(),
                fb == self.fb(),
                n == self.tokens@.len(),
                m0 <= self.index <= n,
                m0 == old(self).index,
                ts == old(self).input(),
                fb == old(self).fb(),
            ensures
                setters_from(ts, m0 as int, fb) == Ok::<(Seq<SetterView>, int), FaultView>((setters_view(setters@), self.index as int)),
                m0 <= self.index <= n,
            decreases n - self.index,
        {
            let m = self.index;
            if m >= n {
                assert(setters_view(setters@) + Seq::<SetterView>::empty() =~= setters_view(setters@));
                break ;
            }
            assert(ts[m as int] == self.tokens@[m as int]@);
            let what: u8 = match &self.tokens[m].value {
                TokenValue::Identifier(_) | TokenValue::EndBlock => 0,
                TokenValue::Setter(_) => 1,
                _ => 2,
            };
            if what == 0 {
                assert(setters_view(setters@) + Seq::<SetterView>::empty() =~= setters_view(setters@));
                break ;
            } else if what == 2 {
                return Err((text2("expected setter, found ", self.tokens[m].to_string()), copy_range(&self.tokens[m].range)));
            }
            let setter_name = match &self.tokens[m].value {
                TokenValue::Setter(name) => name.clone(),
                _ => String::new(),
            };
            let setter_range = copy_range(&self.tokens[m].range);
            self.index = m + 1;
            let (args, open) = match self.arglist() {
                Ok(a) => a,
                Err(e) => return Err(e),
            };
            if args.len() != 1 {
                return Err((text2("expected 1 argument, got ", usize_to_decimal(args.len()).as_str()), open));
            }
            assert(tokens_view(args@)[0] == args@[0]@);
            if !is_literal_value(&args[0].value) {
                return Err((text2("expected Number, String, or Bool, found ", args[0].to_string()), copy_range(&args[0].range)));
            }
            let setter = Setter { name: setter_name, value: args[0].clone(), range: setter_range };
            let ghost acc = setters_view(setters@);
            proof {
                lemma_prefixed(acc, seq![setter@], setters_from(ts, self.index as int, fb));
            }
            setters.push(setter);
            assert(setters_view(setters@) =~= acc + seq![setter@]);
        }
        Ok(setters)
    }

    fn parse_statement(&mut self) -> (r: Result<Statement, Fault>)
        requires
            old(self).wf(),
        ensures
            final(self).gave(old(self), r, statement_at(old(self).input(), old(self).index as int, old(self).fb(), old(self).output_name())),
        decreases self.tokens@.len() - self.index, 3int,
    {
        let ghost ts = self.input();
        let i = self.index;
        if i >= self.tokens.len() {
            return Err((text("expected definition, directive, or identifier, found nothing"), self.fallback_range()));
        }
        assert(ts[i as int] == self.tokens@[i as int]@);
        let what: u8 = match &self.tokens[i].value {
            TokenValue::Definition(TokenDefinitionType::Object(_)) => 0,
            TokenValue::Definition(_) => 1,
            TokenValue::Directive(_) => 2,
            TokenValue::Identifier(_) => 3,
            _ => 4,
        };
        if what == 0 {
            self.definition()
        } else if what == 1 {
            self.property()
        } else if what == 2 {
            self.directive()
        } else if what == 3 {
            self.object()
        } else {
            Err((text2("unexpected ", self.tokens[i].to_string()), copy_range(&self.tokens[i].range)))
        }
    }
}

} // verus!
