use std::ops::Range;
use vstd::prelude::*;

verus! {

// Tokens

/// What follows an `@`: one of the four placement kinds, or the name of an object definition.
pub enum DefinitionType {
    InlineProp,
    InlineArg,
    ChildProp,
    ChildArg,
    Object(String),
}

#[derive(PartialEq, Eq, Structural, Clone, Copy)]
pub enum DirectiveType {
    Include,
    Header,
}

#[derive(PartialEq, Eq, Structural, Clone, Copy)]
pub enum TypeIdentifierType {
    String,
    Number,
    Bool,
}

pub enum IdentifierType {
    Generic(String),
    Type(TypeIdentifierType),
}

pub enum TokenValue {
    /// `"text"`, already unescaped
    String(String),
    /// a numeric literal, held as its canonical decimal text
    Number(String),
    /// `true` (1) or `false` (0)
    Bool(i32),
    Definition(DefinitionType),
    Directive(DirectiveType),
    Setter(String),
    Identifier(IdentifierType),
    Inherits,
    StartBlock,
    EndBlock,
    StartArgList,
    EndArgList,
    ArgListDeliminator,
}

pub struct Token {
    pub value: TokenValue,
    pub range: Range<usize>,
}

/// An error: a message and the source range it is anchored at.
pub type Fault = (String, Range<usize>);

// Mathematical models

pub enum DefinitionTypeView {
    InlineProp,
    InlineArg,
    ChildProp,
    ChildArg,
    Object(Seq<char>),
}

pub enum IdentifierTypeView {
    Generic(Seq<char>),
    Type(TypeIdentifierType),
}

pub enum TokenValueView {
    String(Seq<char>),
    Number(Seq<char>),
    Bool(i32),
    Definition(DefinitionTypeView),
    Directive(DirectiveType),
    Setter(Seq<char>),
    Identifier(IdentifierTypeView),
    Inherits,
    StartBlock,
    EndBlock,
    StartArgList,
    EndArgList,
    ArgListDeliminator,
}

pub struct TokenView {
    pub value: TokenValueView,
    pub range: Range<usize>,
}

pub type FaultView = (Seq<char>, Range<usize>);

pub open spec fn fault_view(f: Fault) -> FaultView {
    (f.0@, f.1)
}

pub open spec fn span(start: int, end: int) -> Range<usize> {
    Range { start: start as usize, end: end as usize }
}

impl View for DefinitionType {
    type V = DefinitionTypeView;

    open spec fn view(&self) -> DefinitionTypeView {
        match self {
            DefinitionType::InlineProp => DefinitionTypeView::InlineProp,
            DefinitionType::InlineArg => DefinitionTypeView::InlineArg,
            DefinitionType::ChildProp => DefinitionTypeView::ChildProp,
            DefinitionType::ChildArg => DefinitionTypeView::ChildArg,
            DefinitionType::Object(name) => DefinitionTypeView::Object(name@),
        }
    }
}

impl View for IdentifierType {
    type V = IdentifierTypeView;

    open spec fn view(&self) -> IdentifierTypeView {
        match self {
            IdentifierType::Generic(name) => IdentifierTypeView::Generic(name@),
            IdentifierType::Type(t) => IdentifierTypeView::Type(*t),
        }
    }
}

impl View for TokenValue {
    type V = TokenValueView;

    open spec fn view(&self) -> TokenValueView {
        match self {
            TokenValue::String(s) => TokenValueView::String(s@),
            TokenValue::Number(n) => TokenValueView::Number(n@),
            TokenValue::Bool(b) => TokenValueView::Bool(*b),
            TokenValue::Definition(d) => TokenValueView::Definition(d@),
            TokenValue::Directive(d) => TokenValueView::Directive(*d),
            TokenValue::Setter(s) => TokenValueView::Setter(s@),
            TokenValue::Identifier(i) => TokenValueView::Identifier(i@),
            TokenValue::Inherits => TokenValueView::Inherits,
            TokenValue::StartBlock => TokenValueView::StartBlock,
            TokenValue::EndBlock => TokenValueView::EndBlock,
            TokenValue::StartArgList => TokenValueView::StartArgList,
            TokenValue::EndArgList => TokenValueView::EndArgList,
            TokenValue::ArgListDeliminator => TokenValueView::ArgListDeliminator,
        }
    }
}

impl View for Token {
    type V = TokenView;

    open spec fn view(&self) -> TokenView {
        TokenView { value: self.value@, range: self.range }
    }
}

pub open spec fn tokens_view(ts: Seq<Token>) -> Seq<TokenView> {
    ts.map_values(|t: Token| t@)
}

impl Clone for DefinitionType {
    fn clone(&self) -> (r: Self)
        ensures
            r == *self,
    {
        match self {
            DefinitionType::InlineProp => DefinitionType::InlineProp,
            DefinitionType::InlineArg => DefinitionType::InlineArg,
            DefinitionType::ChildProp => DefinitionType::ChildProp,
            DefinitionType::ChildArg => DefinitionType::ChildArg,
            DefinitionType::Object(name) => DefinitionType::Object(name.clone()),
        }
    }
}

impl Clone for IdentifierType {
    fn clone(&self) -> (r: Self)
        ensures
            r == *self,
    {
        match self {
            IdentifierType::Generic(name) => IdentifierType::Generic(name.clone()),
            IdentifierType::Type(t) => IdentifierType::Type(*t),
        }
    }
}

impl Clone for TokenValue {
    fn clone(&self) -> (r: Self)
        ensures
            r == *self,
    {
        match self {
            TokenValue::String(s) => TokenValue::String(s.clone()),
            TokenValue::Number(n) => TokenValue::Number(n.clone()),
            TokenValue::Bool(b) => TokenValue::Bool(*b),
            TokenValue::Definition(d) => TokenValue::Definition(d.clone()),
            TokenValue::Directive(d) => TokenValue::Directive(*d),
            TokenValue::Setter(s) => TokenValue::Setter(s.clone()),
            TokenValue::Identifier(i) => TokenValue::Identifier(i.clone()),
            TokenValue::Inherits => TokenValue::Inherits,
            TokenValue::StartBlock => TokenValue::StartBlock,
            TokenValue::EndBlock => TokenValue::EndBlock,
            TokenValue::StartArgList => TokenValue::StartArgList,
            TokenValue::EndArgList => TokenValue::EndArgList,
            TokenValue::ArgListDeliminator => TokenValue::ArgListDeliminator,
        }
    }
}

impl Clone for Token {
    fn clone(&self) -> (r: Self)
        ensures
            r == *self,
    {
        Token { value: self.value.clone(), range: Range { start: self.range.start, end: self.range.end } }
    }
}


// Token helpers

pub open spec fn kind_name(v: TokenValueView) -> Seq<char> {
    match v {
        TokenValueView::String(_) => "string"@,
        TokenValueView::Number(_) => "number"@,
        TokenValueView::Bool(_) => "boolean"@,
        TokenValueView::Definition(_) => "definition"@,
        TokenValueView::Directive(_) => "directive"@,
        TokenValueView::Setter(_) => "setter"@,
        TokenValueView::Identifier(_) => "identifier"@,
        TokenValueView::StartBlock => "{"@,
        TokenValueView::EndBlock => "}"@,
        TokenValueView::StartArgList => "("@,
        TokenValueView::EndArgList => ")"@,
        TokenValueView::ArgListDeliminator => ","@,
        TokenValueView::Inherits => "->"@,
    }
}

/// A literal is a string, number or boolean token.
pub open spec fn is_literal(v: TokenValueView) -> bool {
    v is String || v is Number || v is Bool
}

/// The text a literal renders as.
pub open spec fn literal_text(v: TokenValueView) -> Seq<char> {
    match v {
        TokenValueView::String(s) => s,
        TokenValueView::Number(n) => n,
        TokenValueView::Bool(b) => if b == 1 { "1"@ } else { "0"@ },
        _ => Seq::empty(),
    }
}

pub open spec fn definition_type_of(name: Seq<char>) -> DefinitionTypeView {
    if name == "InlineProp"@ {
        DefinitionTypeView::InlineProp
    } else if name == "InlineArg"@ {
        DefinitionTypeView::InlineArg
    } else if name == "ChildProp"@ {
        DefinitionTypeView::ChildProp
    } else if name == "ChildArg"@ {
        DefinitionTypeView::ChildArg
    } else {
        DefinitionTypeView::Object(name)
    }
}

pub open spec fn definition_type_name(d: DefinitionTypeView) -> Seq<char> {
    match d {
        DefinitionTypeView::InlineArg => "InlineArg"@,
        DefinitionTypeView::InlineProp => "InlineProp"@,
        DefinitionTypeView::ChildArg => "ChildArg"@,
        DefinitionTypeView::ChildProp => "ChildProp"@,
        DefinitionTypeView::Object(_) => "Object"@,
    }
}

pub open spec fn is_directive_name(name: Seq<char>) -> bool {
    name == "include"@ || name == "header"@
}

pub open spec fn directive_of(name: Seq<char>) -> DirectiveType {
    if name == "include"@ {
        DirectiveType::Include
    } else {
        DirectiveType::Header
    }
}

impl Token {
    /// The name of the token's kind, as used in messages.
    pub fn to_string(&self) -> (r: &'static str)
        ensures
            r@ == kind_name(self.value@),
    {
        match &self.value {
            TokenValue::String(_) => "string",
            TokenValue::Number(_) => "number",
            TokenValue::Bool(_) => "boolean",
            TokenValue::Definition(_) => "definition",
            TokenValue::Directive(_) => "directive",
            TokenValue::Setter(_) => "setter",
            TokenValue::Identifier(_) => "identifier",
            TokenValue::StartBlock => "{",
            TokenValue::EndBlock => "}",
            TokenValue::StartArgList => "(",
            TokenValue::EndArgList => ")",
            TokenValue::ArgListDeliminator => ",",
            TokenValue::Inherits => "->",
        }
    }

    /// The text a literal token renders as.
    pub fn value_to_string(&self) -> (r: String)
        requires
            is_literal(self.value@),
        ensures
            r@ == literal_text(self.value@),
    {
        match &self.value {
            TokenValue::String(string) => string.clone(),
            TokenValue::Number(number) => number.clone(),
            TokenValue::Bool(boolean) => {
                if *boolean == 1 {
                    String::from_str("1")
                } else {
                    String::from_str("0")
                }
            },
            _ => String::new(),
        }
    }
}

impl DefinitionType {
    pub fn from(definition: &String) -> (r: TokenValue)
        ensures
            r@ == TokenValueView::Definition(definition_type_of(definition@)),
    {
        TokenValue::Definition(
            if *definition == String::from_str("InlineProp") {
                DefinitionType::InlineProp
            } else if *definition == String::from_str("InlineArg") {
                DefinitionType::InlineArg
            } else if *definition == String::from_str("ChildProp") {
                DefinitionType::ChildProp
            } else if *definition == String::from_str("ChildArg") {
                DefinitionType::ChildArg
            } else {
                DefinitionType::Object(definition.clone())
            },
        )
    }

    pub fn to_string(&self) -> (r: &'static str)
        ensures
            r@ == definition_type_name(self@),
    {
        match self {
            DefinitionType::InlineArg => "InlineArg",
            DefinitionType::InlineProp => "InlineProp",
            DefinitionType::ChildArg => "ChildArg",
            DefinitionType::ChildProp => "ChildProp",
            DefinitionType::Object(_) => "Object",
        }
    }
}

impl DirectiveType {
    /// The directive token for `include` or `header`; any other name is no directive.
    pub fn from(directive: &String) -> (r: Option<TokenValue>)
        ensures
            r is Some <==> is_directive_name(directive@),
            r is Some ==> r->0@ == TokenValueView::Directive(directive_of(directive@)),
    {
        if *directive == String::from_str("include") {
            Some(TokenValue::Directive(DirectiveType::Include))
        } else if *directive == String::from_str("header") {
            Some(TokenValue::Directive(DirectiveType::Header))
        } else {
            None
        }
    }
}


// The outside unescaper

/// What `unescape::unescape` returns for the given escaped text.
pub uninterp spec fn unescaped(s: Seq<char>) -> Option<Seq<char>>;

/// Relies on `unescape::unescape`: standard backslash escapes are replaced by the
/// characters they stand for, `None` for a malformed escape; text without a backslash
/// is returned as it is.
#[verifier::external_body]
fn unescape_text(s: &str) -> (r: Option<String>)
    ensures
        r is Some <==> unescaped(s@) is Some,
        r is Some ==> r->0@ == unescaped(s@)->0,
        !s@.contains('\\') ==> r is Some && r->0@ == s@,
{
    unescape::unescape(s)
}

// Lexical grammar

pub open spec fn is_name_char(c: char) -> bool {
    ('a' <= c && c <= 'z') || ('A' <= c && c <= 'Z') || c == '-' || c == '_'
}

pub open spec fn is_digit(c: char) -> bool {
    '0' <= c && c <= '9'
}

pub open spec fn is_number_char(c: char) -> bool {
    is_digit(c) || c == '.'
}

/// The end of the run of name characters that starts at `j`.
pub open spec fn name_end(s: Seq<char>, j: int) -> int
    decreases s.len() - j,
{
    if 0 <= j < s.len() && is_name_char(s[j]) {
        name_end(s, j + 1)
    } else {
        j
    }
}

/// The end of the run of digits and points that starts at `j`.
pub open spec fn number_end(s: Seq<char>, j: int) -> int
    decreases s.len() - j,
{
    if 0 <= j < s.len() && is_number_char(s[j]) {
        number_end(s, j + 1)
    } else {
        j
    }
}

/// The position of the next newline at or after `j`, or the end of the input.
pub open spec fn comment_end(s: Seq<char>, j: int) -> int
    decreases s.len() - j,
{
    if 0 <= j < s.len() && s[j] != '\n' {
        comment_end(s, j + 1)
    } else {
        j
    }
}

/// Scanning string contents from `j`: `Ok` with the position of the closing quote,
/// or `Err` with the position where the string broke off (a newline or the end of input).
/// A backslash always takes the character after it along.
pub open spec fn string_end(s: Seq<char>, j: int) -> Result<int, int>
    decreases s.len() - j,
{
    if j < 0 || j >= s.len() {
        Err(j)
    } else if s[j] == '\\' {
        if j + 1 >= s.len() {
            Err(j + 1)
        } else {
            string_end(s, j + 2)
        }
    } else if s[j] == '"' {
        Ok(j)
    } else if s[j] == '\n' {
        Err(j)
    } else {
        string_end(s, j + 1)
    }
}

pub open spec fn count_points(s: Seq<char>) -> nat
    decreases s.len(),
{
    if s.len() == 0 {
        0
    } else {
        count_points(s.drop_last()) + if s.last() == '.' { 1nat } else { 0nat }
    }
}

pub open spec fn skip_leading_zeros(s: Seq<char>) -> Seq<char>
    decreases s.len(),
{
    if s.len() > 0 && s[0] == '0' {
        skip_leading_zeros(s.drop_first())
    } else {
        s
    }
}

pub open spec fn skip_trailing_zeros(s: Seq<char>) -> Seq<char>
    decreases s.len(),
{
    if s.len() > 0 && s.last() == '0' {
        skip_trailing_zeros(s.drop_last())
    } else {
        s
    }
}

/// The canonical decimal text of a number with the given whole and fractional digits:
/// no leading zeros before the point (but one zero for an empty whole part),
/// no trailing zeros after it, and no point when nothing follows it.
pub open spec fn canonical_decimal(whole: Seq<char>, fraction: Seq<char>) -> Seq<char> {
    let w = skip_leading_zeros(whole);
    let f = skip_trailing_zeros(fraction);
    let w = if w.len() == 0 { seq!['0'] } else { w };
    if f.len() == 0 {
        w
    } else {
        w + seq!['.'] + f
    }
}

/// The position of the first point at or after `j`, or the end of `t`.
pub open spec fn point_at(t: Seq<char>, j: int) -> int
    decreases t.len() - j,
{
    if 0 <= j < t.len() && t[j] != '.' {
        point_at(t, j + 1)
    } else {
        j
    }
}

/// The canonical text of a well-formed numeric literal (digits and at most one point).
pub open spec fn canonical_number(t: Seq<char>) -> Seq<char> {
    let p = point_at(t, 0);
    if p < t.len() {
        canonical_decimal(t.subrange(0, p), t.subrange(p + 1, t.len() as int))
    } else {
        canonical_decimal(t, Seq::empty())
    }
}

pub open spec fn identifier_value(word: Seq<char>) -> TokenValueView {
    if word == "true"@ {
        TokenValueView::Bool(1)
    } else if word == "false"@ {
        TokenValueView::Bool(0)
    } else if word == "String"@ {
        TokenValueView::Identifier(IdentifierTypeView::Type(TypeIdentifierType::String))
    } else if word == "Number"@ {
        TokenValueView::Identifier(IdentifierTypeView::Type(TypeIdentifierType::Number))
    } else if word == "Bool"@ {
        TokenValueView::Identifier(IdentifierTypeView::Type(TypeIdentifierType::Bool))
    } else {
        TokenValueView::Identifier(IdentifierTypeView::Generic(word))
    }
}

pub open spec fn unrecognized(c: char) -> Seq<char> {
    "unrecognized character '"@ + seq![c] + "'"@
}

/// What the scanner does at one position.
pub enum Step {
    /// nothing is emitted; scanning goes on at the position given
    Skip(int),
    /// a token is emitted; scanning goes on at the position given
    Emit(TokenView, int),
    /// scanning stops with an error
    Fail(FaultView),
}

pub open spec fn emit(v: TokenValueView, start: int, end: int) -> Step {
    Step::Emit(TokenView { value: v, range: span(start, end) }, end)
}

pub open spec fn fail(m: Seq<char>, start: int, end: int) -> Step {
    Step::Fail((m, span(start, end)))
}

/// The scanner's step at position `i` of the input `s`.
pub open spec fn step(s: Seq<char>, i: int) -> Step
    recommends
        0 <= i < s.len(),
{
    let c = s[i];
    if c == '@' {
        let e = name_end(s, i + 1);
        emit(TokenValueView::Definition(definition_type_of(s.subrange(i + 1, e))), i, e)
    } else if c == '#' {
        let e = name_end(s, i + 1);
        let name = s.subrange(i + 1, e);
        if is_directive_name(name) {
            emit(TokenValueView::Directive(directive_of(name)), i, e)
        } else {
            fail("invalid directive"@, i, e)
        }
    } else if c == '"' {
        match string_end(s, i + 1) {
            Ok(close) => match unescaped(s.subrange(i + 1, close)) {
                Some(text) => emit(TokenValueView::String(text), i, close + 1),
                None => fail("unable to escape string"@, i, close + 1),
            },
            Err(at) => fail("unexpected end of string input"@, at, at),
        }
    } else if c == '.' {
        let e = name_end(s, i + 1);
        emit(TokenValueView::Setter(s.subrange(i + 1, e)), i, e)
    } else if is_digit(c) {
        let e = number_end(s, i);
        let t = s.subrange(i, e);
        if count_points(t) <= 1 {
            emit(TokenValueView::Number(canonical_number(t)), i, e)
        } else {
            fail("invalid float literal"@, i, e)
        }
    } else if c == '-' {
        if i + 1 < s.len() {
            if s[i + 1] == '>' {
                emit(TokenValueView::Inherits, i, i + 2)
            } else {
                fail(unrecognized(s[i + 1]), i + 1, i + 2)
            }
        } else {
            fail("unexpected end of input"@, i + 1, i + 1)
        }
    } else if is_name_char(c) {
        let e = name_end(s, i);
        emit(identifier_value(s.subrange(i, e)), i, e)
    } else if c == '{' {
        emit(TokenValueView::StartBlock, i, i + 1)
    } else if c == '}' {
        emit(TokenValueView::EndBlock, i, i + 1)
    } else if c == ',' {
        emit(TokenValueView::ArgListDeliminator, i, i + 1)
    } else if c == '(' {
        emit(TokenValueView::StartArgList, i, i + 1)
    } else if c == ')' {
        emit(TokenValueView::EndArgList, i, i + 1)
    } else if c == ' ' || c == '\t' || c == '\n' {
        Step::Skip(i + 1)
    } else if c == '/' {
        Step::Skip(comment_end(s, i))
    } else {
        fail(unrecognized(c), i, i)
    }
}

/// The tokens of `s` from position `i` on, or the first lexical error.
pub open spec fn lex_from(s: Seq<char>, i: int) -> Result<Seq<TokenView>, FaultView>
    decreases s.len() - i,
{
    if i < 0 || i >= s.len() {
        Ok(Seq::empty())
    } else {
        match step(s, i) {
            Step::Skip(n) => if i < n <= s.len() {
                lex_from(s, n)
            } else {
                Ok(Seq::empty())
            },
            Step::Emit(t, n) => if i < n <= s.len() {
                match lex_from(s, n) {
                    Ok(ts) => Ok(seq![t] + ts),
                    Err(e) => Err(e),
                }
            } else {
                Ok(Seq::empty())
            },
            Step::Fail(e) => Err(e),
        }
    }
}

/// `acc` followed by the outcome `r`.
pub open spec fn after(acc: Seq<TokenView>, r: Result<Seq<TokenView>, FaultView>) -> Result<Seq<TokenView>, FaultView> {
    match r {
        Ok(ts) => Ok(acc + ts),
        Err(e) => Err(e),
    }
}

/// The tokens of a whole source text, or its first lexical error.
pub open spec fn lex_spec(s: Seq<char>) -> Result<Seq<TokenView>, FaultView> {
    lex_from(s, 0)
}


// Lexer

fn is_name_char_exec(c: char) -> (r: bool)
    ensures
        r == is_name_char(c),
{
    ('a' <= c && c <= 'z') || ('A' <= c && c <= 'Z') || c == '-' || c == '_'
}

fn is_digit_exec(c: char) -> (r: bool)
    ensures
        r == is_digit(c),
{
    '0' <= c && c <= '9'
}

pub struct Lexer {
    pub tokens: Vec<Token>,
    index: usize,
    input: String,
    chars: Vec<char>,
}

impl Lexer {
    /// The source text being scanned.
    pub closed spec fn text(&self) -> Seq<char> {
        self.input@
    }

    /// The tokens emitted so far.
    pub closed spec fn emitted(&self) -> Seq<TokenView> {
        tokens_view(self.tokens@)
    }

    /// Where scanning goes on.
    pub closed spec fn position(&self) -> int {
        self.index as int
    }

    pub closed spec fn wf(&self) -> bool {
        &&& self.chars@ == self.input@
        &&& self.chars@.len() < usize::MAX
        &&& self.index <= self.chars@.len()
    }

    closed spec fn moved_from(&self, before: &Self) -> bool {
        &&& self.wf()
        &&& self.input == before.input
        &&& self.chars == before.chars
        &&& self.tokens == before.tokens
    }

    /// What a scanner that emits one token or fails did.
    closed spec fn stepped(&self, before: &Self, r: Result<Token, Fault>) -> bool {
        &&& self.moved_from(before)
        &&& match step(before.chars@, before.index as int) {
            Step::Emit(t, n) => r is Ok && r->Ok_0@ == t && self.index == n && before.index < n,
            Step::Fail(e) => r is Err && fault_view(r->Err_0) == e,
            Step::Skip(_) => false,
        }
    }

    // Helper Functions

    /// A lexer over the given source text, with no tokens yet.
    pub fn new(s: String) -> (r: Self)
        requires
            s@.len() < usize::MAX,
        ensures
            r.wf(),
            r.text() == s@,
            r.position() == 0,
            r.emitted() == Seq::<TokenView>::empty(),
    {
        let n = s.as_str().unicode_len();
        let mut chars: Vec<char> = Vec::new();
        let mut k: usize = 0;
        while k < n
            invariant
                n == s@.len(),
                k <= n,
                chars@ == s@.subrange(0, k as int),
            decreases n - k,
        {
            chars.push(s.as_str().get_char(k));
            k += 1;
            assert(chars@ =~= s@.subrange(0, k as int));
        }
        assert(chars@ =~= s@);
        let r = Lexer { tokens: Vec::new(), index: 0, input: s, chars };
        assert(r.emitted() =~= Seq::<TokenView>::empty());
        r
    }

    fn move_forward(&mut self)
        requires
            old(self).wf(),
            old(self).index < old(self).chars@.len(),
        ensures
            final(self).moved_from(old(self)),
            final(self).index == old(self).index + 1,
    {
        self.index += 1;
    }

    fn scan_name(&self, j: usize) -> (e: usize)
        requires
            self.wf(),
            j <= self.chars@.len(),
        ensures
            e == name_end(self.chars@, j as int),
            j <= e <= self.chars@.len(),
    {
        let mut k = j;
        while k < self.chars.len() && is_name_char_exec(self.chars[k])
            invariant
                self.wf(),
                j <= k <= self.chars@.len(),
                name_end(self.chars@, j as int) == name_end(self.chars@, k as int),
            decreases self.chars@.len() - k,
        {
            k += 1;
        }
        k
    }

    fn text_between(&self, a: usize, b: usize) -> (r: String)
        requires
            self.wf(),
            a <= b <= self.chars@.len(),
        ensures
            r@ == self.chars@.subrange(a as int, b as int),
    {
        String::from_str(self.input.as_str().substring_char(a, b))
    }

    fn unrecognized_message(&self, k: usize) -> (r: String)
        requires
            self.wf(),
            k < self.chars@.len(),
        ensures
            r@ == unrecognized(self.chars@[k as int]),
    {
        let mut m = String::from_str("unrecognized character '");
        m.append(self.input.as_str().substring_char(k, k + 1));
        m.append("'");
        assert(self.chars@.subrange(k as int, k + 1) =~= seq![self.chars@[k as int]]);
        m
    }

    // Lexing Functions

    fn definition(&mut self) -> (r: Result<Token, Fault>)
        requires
            old(self).wf(),
            old(self).index < old(self).chars@.len(),
            old(self).chars@[old(self).index as int] == '@',
        ensures
            final(self).stepped(old(self), r),
    {
        let start_position = self.index;
        let e = self.scan_name(self.index + 1);
        let definition = self.text_between(self.index + 1, e);
        self.index = e;
        Ok(Token { value: DefinitionType::from(&definition), range: Range { start: start_position, end: e } })
    }

    fn directive(&mut self) -> (r: Result<Token, Fault>)
        requires
            old(self).wf(),
            old(self).index < old(self).chars@.len(),
            old(self).chars@[old(self).index as int] == '#',
        ensures
            final(self).stepped(old(self), r),
    {
        let start_position = self.index;
        let e = self.scan_name(self.index + 1);
        let directive = self.text_between(self.index + 1, e);
        match DirectiveType::from(&directive) {
            Some(value) => {
                self.index = e;
                Ok(Token { value, range: Range { start: start_position, end: e } })
            },
            None => Err((String::from_str("invalid directive"), Range { start: start_position, end: e })),
        }
    }

    fn string(&mut self) -> (r: Result<Token, Fault>)
        requires
            old(self).wf(),
            old(self).index < old(self).chars@.len(),
            old(self).chars@[old(self).index as int] == '"',
        ensures
            final(self).stepped(old(self), r),
    {
        let start_position = self.index;
        let n = self.chars.len();
        let mut k = self.index + 1;
        let ghost s = self.chars@;
        let mut close: usize = 0;
        loop
            invariant
                self.wf(),
                s == self.chars@,
                n == s.len(),
                start_position < k <= n,
                s[start_position as int] == '"',
                self.index == start_position,
                string_end(s, start_position + 1) == string_end(s, k as int),
            ensures
                string_end(s, start_position + 1) == Ok::<int, int>(close as int),
                start_position < close < n,
            decreases n + 2 - k,
        {
            let end_of_input = String::from_str("unexpected end of string input");
            if k >= n {
                return Err((end_of_input, Range { start: k, end: k }));
            }
            let c = self.chars[k];
            if c == '\\' {
                if k + 1 >= n {
                    return Err((end_of_input, Range { start: k + 1, end: k + 1 }));
                }
                k = k + 2;
            } else if c == '"' {
                close = k;
                break;
            } else if c == '\n' {
                return Err((end_of_input, Range { start: k, end: k }));
            } else {
                k = k + 1;
            }
        }
        let raw = self.text_between(start_position + 1, close);
        match unescape_text(raw.as_str()) {
            Some(text) => {
                self.index = close + 1;
                Ok(Token { value: TokenValue::String(text), range: Range { start: start_position, end: close + 1 } })
            },
            None => Err((String::from_str("unable to escape string"), Range { start: start_position, end: close + 1 })),
        }
    }

    fn setter(&mut self) -> (r: Result<Token, Fault>)
        requires
            old(self).wf(),
            old(self).index < old(self).chars@.len(),
            old(self).chars@[old(self).index as int] == '.',
        ensures
            final(self).stepped(old(self), r),
    {
        let start_position = self.index;
        let e = self.scan_name(self.index + 1);
        let setter = self.text_between(self.index + 1, e);
        self.index = e;
        Ok(Token { value: TokenValue::Setter(setter), range: Range { start: start_position, end: e } })
    }

    fn identifier(&mut self) -> (r: Result<Token, Fault>)
        requires
            old(self).wf(),
            old(self).index < old(self).chars@.len(),
            is_name_char(old(self).chars@[old(self).index as int]),
            old(self).chars@[old(self).index as int] != '-',
        ensures
            final(self).stepped(old(self), r),
    {
        let start_position = self.index;
        let e = self.scan_name(self.index + 1);
        let identifier = self.text_between(self.index, e);
        self.index = e;
        let value = if identifier == String::from_str("true") {
            TokenValue::Bool(1)
        } else if identifier == String::from_str("false") {
            TokenValue::Bool(0)
        } else if identifier == String::from_str("String") {
            TokenValue::Identifier(IdentifierType::Type(TypeIdentifierType::String))
        } else if identifier == String::from_str("Number") {
            TokenValue::Identifier(IdentifierType::Type(TypeIdentifierType::Number))
        } else if identifier == String::from_str("Bool") {
            TokenValue::Identifier(IdentifierType::Type(TypeIdentifierType::Bool))
        } else {
            TokenValue::Identifier(IdentifierType::Generic(identifier))
        };
        Ok(Token { value, range: Range { start: start_position, end: e } })
    }

    fn add_and_move(&mut self, value: TokenValue) -> (r: Result<Token, Fault>)
        requires
            old(self).wf(),
            old(self).index < old(self).chars@.len(),
        ensures
            final(self).moved_from(old(self)),
            final(self).index == old(self).index + 1,
            r is Ok,
            r->Ok_0.value == value,
            r->Ok_0.range == span(old(self).index as int, old(self).index + 1),
    {
        self.move_forward();
        Ok(Token { value, range: Range { start: self.index - 1, end: self.index } })
    }

    fn comment(&mut self)
        requires
            old(self).wf(),
            old(self).index < old(self).chars@.len(),
            old(self).chars@[old(self).index as int] == '/',
        ensures
            final(self).moved_from(old(self)),
            final(self).index == comment_end(old(self).chars@, old(self).index as int),
            final(self).index > old(self).index,
    {
        while self.index < self.chars.len() && self.chars[self.index] != '\n'
            invariant
                self.moved_from(old(self)),
                self.index >= old(self).index,
                self.chars@[old(self).index as int] == '/',
                comment_end(self.chars@, old(self).index as int) == comment_end(self.chars@, self.index as int),
            decreases self.chars@.len() - self.index,
        {
            self.move_forward();
        }
    }

    fn number(&mut self) -> (r: Result<Token, Fault>)
        requires
            old(self).wf(),
            old(self).index < old(self).chars@.len(),
            is_digit(old(self).chars@[old(self).index as int]),
        ensures
            final(self).stepped(old(self), r),
    {
        let i = self.index;
        let n = self.chars.len();
        let ghost s = self.chars@;
        let mut e = i + 1;
        while e < n && (is_digit_exec(self.chars[e]) || self.chars[e] == '.')
            invariant
                self.wf(),
                s == self.chars@,
                n == s.len(),
                i < e <= n,
                is_digit(s[i as int]),
                number_end(s, i as int) == number_end(s, e as int),
            decreases n - e,
        {
            e += 1;
        }
        let ghost t = s.subrange(i as int, e as int);
        // count the points
        let mut points: usize = 0;
        let mut k = i;
        while k < e
            invariant
                self.wf(),
                s == self.chars@,
                i <= k <= e <= n,
                n == s.len(),
                points == count_points(s.subrange(i as int, k as int)),
                points <= k - i,
            decreases e - k,
        {
            assert(s.subrange(i as int, k + 1).drop_last() =~= s.subrange(i as int, k as int));
            if self.chars[k] == '.' {
                points += 1;
            }
            k += 1;
        }
        assert(s.subrange(i as int, e as int) =~= t);
        if points > 1 {
            return Err((String::from_str("invalid float literal"), Range { start: i, end: e }));
        }
        // find the point
        let mut p = i;
        while p < e && self.chars[p] != '.'
            invariant
                self.wf(),
                s == self.chars@,
                i <= p <= e <= n,
                n == s.len(),
                t == s.subrange(i as int, e as int),
                point_at(t, 0) == point_at(t, p - i),
            decreases e - p,
        {
            p += 1;
        }
        assert(point_at(t, p - i) == p - i);
        // skip leading zeros of the whole part
        let mut a = i;
        while a < p && self.chars[a] == '0'
            invariant
                self.wf(),
                s == self.chars@,
                i <= a <= p <= e <= n,
                n == s.len(),
                skip_leading_zeros(s.subrange(i as int, p as int)) == skip_leading_zeros(s.subrange(a as int, p as int)),
            decreases p - a,
        {
            assert(s.subrange(a as int, p as int).drop_first() =~= s.subrange(a + 1, p as int));
            a += 1;
        }
        assert(skip_leading_zeros(s.subrange(a as int, p as int)) == s.subrange(a as int, p as int));
        // skip trailing zeros of the fraction
        let fraction_start = if p < e { p + 1 } else { e };
        let mut b = e;
        while b > fraction_start && self.chars[b - 1] == '0'
            invariant
                self.wf(),
                s == self.chars@,
                fraction_start <= b <= e <= n,
                n == s.len(),
                skip_trailing_zeros(s.subrange(fraction_start as int, e as int)) == skip_trailing_zeros(s.subrange(fraction_start as int, b as int)),
            decreases b,
        {
            assert(s.subrange(fraction_start as int, b as int).drop_last() =~= s.subrange(fraction_start as int, b - 1));
            b -= 1;
        }
        assert(skip_trailing_zeros(s.subrange(fraction_start as int, b as int)) == s.subrange(fraction_start as int, b as int));
        let mut text = if a == p {
            String::from_str("0")
        } else {
            self.text_between(a, p)
        };
        if b > fraction_start {
            text.append(".");
            text.append(self.input.as_str().substring_char(fraction_start, b));
        }
        proof {
            reveal_strlit("0");
            reveal_strlit(".");
            if p < e {
                assert(t.subrange(0, p - i) =~= s.subrange(i as int, p as int));
                assert(t.subrange(p - i + 1, t.len() as int) =~= s.subrange(fraction_start as int, e as int));
            } else {
                assert(s.subrange(fraction_start as int, e as int) =~= Seq::<char>::empty());
                assert(t =~= s.subrange(i as int, p as int));
            }
            let w = skip_leading_zeros(s.subrange(i as int, p as int));
            let w = if w.len() == 0 { seq!['0'] } else { w };
            let f = s.subrange(fraction_start as int, b as int);
            if f.len() == 0 {
                assert(text@ =~= w);
            } else {
                assert(text@ =~= w + seq!['.'] + f);
            }
        }
        self.index = e;
        Ok(Token { value: TokenValue::Number(text), range: Range { start: i, end: e } })
    }

    fn inherits(&mut self) -> (r: Result<Token, Fault>)
        requires
            old(self).wf(),
            old(self).index < old(self).chars@.len(),
            old(self).chars@[old(self).index as int] == '-',
        ensures
            final(self).stepped(old(self), r),
    {
        let i = self.index;
        if i + 1 < self.chars.len() {
            if self.chars[i + 1] == '>' {
                self.index = i + 2;
                Ok(Token { value: TokenValue::Inherits, range: Range { start: i, end: i + 2 } })
            } else {
                Err((self.unrecognized_message(i + 1), Range { start: i + 1, end: i + 2 }))
            }
        } else {
            Err((String::from_str("unexpected end of input"), Range { start: i + 1, end: i + 1 }))
        }
    }

    /// Scans the rest of the text, appending its tokens; the first lexical error stops it.
    pub fn lex(&mut self) -> (r: Result<(), Fault>)
        requires
            old(self).wf(),
        ensures
            final(self).wf(),
            final(self).text() == old(self).text(),
            match lex_from(old(self).text(), old(self).position()) {
                Ok(ts) => r is Ok && final(self).emitted() == old(self).emitted() + ts,
                Err(e) => r is Err && fault_view(r->Err_0) == e,
            },
    {
        let ghost s = self.chars@;
        loop
            invariant
                self.wf(),
                s == self.chars@,
                self.input == old(self).input,
                after(tokens_view(self.tokens@), lex_from(s, self.index as int))
                    == after(tokens_view(old(self).tokens@), lex_from(s, old(self).index as int)),
            decreases s.len() - self.index,
        {
            if self.index >= self.chars.len() {
                assert(tokens_view(self.tokens@) + Seq::<TokenView>::empty() =~= tokens_view(self.tokens@));
                return Ok(());
            }
            let ghost before = *self;
            let c = self.chars[self.index];
            let token = match c {
                '@' => self.definition(),
                '#' => self.directive(),
                '"' => self.string(),
                '.' => self.setter(),
                '0'..='9' => self.number(),
                '-' => self.inherits(),
                'a'..='z' | 'A'..='Z' | '_' => self.identifier(),
                '{' => self.add_and_move(TokenValue::StartBlock),
                '}' => self.add_and_move(TokenValue::EndBlock),
                ',' => self.add_and_move(TokenValue::ArgListDeliminator),
                '(' => self.add_and_move(TokenValue::StartArgList),
                ')' => self.add_and_move(TokenValue::EndArgList),
                ' ' | '\t' | '\n' => {
                    self.move_forward();
                    continue ;
                },
                '/' => {
                    self.comment();
                    continue ;
                },
                _ => {
                    let i = self.index;
                    Err((self.unrecognized_message(i), Range { start: i, end: i }))
                },
            };
            match token {
                Ok(token) => {
                    let ghost acc = tokens_view(self.tokens@);
                    proof {
                        assert(step(s, before.index as int) == Step::Emit(token@, self.index as int));
                    }
                    self.tokens.push(token);
                    proof {
                        assert(tokens_view(self.tokens@) =~= acc.push(token@));
                        match lex_from(s, self.index as int) {
                            Ok(ts) => {
                                assert(acc + (seq![token@] + ts) =~= acc.push(token@) + ts);
                            },
                            Err(_) => {},
                        }
                    }
                },
                Err(err) => return Err(err),
            }
        }
    }
}

} // verus!
