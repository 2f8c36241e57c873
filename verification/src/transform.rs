//! ES modules as functions: the transform behind the module runner of engines without a module
//! loader. A module becomes an async function whose imports, exports, `import.meta` and `import()`
//! go through the runner's parameters.

use crate::order;
use crate::text;
use oxc::allocator::Allocator;
use oxc::ast::ast::{Declaration, Statement};
use oxc::codegen::Codegen;
use oxc::parser::Parser;
use oxc::semantic::SemanticBuilder;
use oxc::span::SourceType;
use oxc_transformer_plugins::ModuleRunnerTransform;
use vstd::prelude::*;

verus! {

/// The runner's module body parameters, in the order the runner passes them.
pub const WRAPPER_HEAD: &'static str = "(async function (__vite_ssr_exports__, __vite_ssr_import_meta__, __vite_ssr_import__, __vite_ssr_dynamic_import__, __vite_ssr_exportAll__, __vite_ssr_exportName__) {\"use strict\";\n";

pub const WRAPPER_TAIL: &'static str = "\n})";

/// A transformed module: the wrapper function's source and the specifiers it imports statically.
pub struct Transformed {
    pub code: String,
    pub deps: Vec<String>,
}

/// A complaint about a source: its message, and the byte offsets that it points at.
pub struct Diagnostic {
    pub message: String,
    pub offsets: Vec<u32>,
}

pub struct DiagnosticView {
    pub message: Seq<char>,
    pub offsets: Seq<u32>,
}

impl View for Diagnostic {
    type V = DiagnosticView;

    open spec fn view(&self) -> DiagnosticView {
        DiagnosticView { message: self.message@, offsets: self.offsets@ }
    }
}

/// The views of diagnostics.
pub open spec fn diagnostic_views(ds: Seq<Diagnostic>) -> Seq<DiagnosticView> {
    Seq::new(ds.len(), |i: int| ds[i]@)
}

/// A statement at the top level of a module, as far as it matters here: a class that is exported by
/// its declaration, with its name, where it has one, and its byte offset.
pub enum TopLevel {
    ExportedClass(Option<String>, u32),
    Other,
}

pub enum TopLevelView {
    ExportedClass(Option<Seq<char>>, u32),
    Other,
}

impl View for TopLevel {
    type V = TopLevelView;

    open spec fn view(&self) -> TopLevelView {
        match *self {
            TopLevel::ExportedClass(name, offset) => TopLevelView::ExportedClass(
                text::option_text(name),
                offset,
            ),
            TopLevel::Other => TopLevelView::Other,
        }
    }
}

/// The views of statements.
pub open spec fn statement_views(ss: Seq<TopLevel>) -> Seq<TopLevelView> {
    Seq::new(ss.len(), |i: int| ss[i]@)
}

/// A parsed module: its statements, and what the parser complains of.
pub struct Parsed {
    pub statements: Vec<TopLevel>,
    pub complaints: Vec<Diagnostic>,
}

pub struct ParsedView {
    pub statements: Seq<TopLevelView>,
    pub complaints: Seq<DiagnosticView>,
}

impl View for Parsed {
    type V = ParsedView;

    open spec fn view(&self) -> ParsedView {
        ParsedView {
            statements: statement_views(self.statements@),
            complaints: diagnostic_views(self.complaints@),
        }
    }
}

/// What `oxc::parser::Parser::parse` makes of the source of an ES module.
pub uninterp spec fn parsed_of(source: Seq<char>) -> ParsedView;

/// `oxc::parser::Parser::parse` on an ES module: the statements of the program's body, one for one
/// and in order, and the diagnostics. They depend on the source alone.
#[verifier::external_body]
fn parse(source: &str) -> (r: Parsed)
    ensures
        r@ == parsed_of(source@),
{
    let arena = Allocator::default();
    let parsed = Parser::new(&arena, source, SourceType::mjs()).parse();
    let statements = parsed.program.body.iter().map(|s| match s {
        Statement::ExportDeclaration(e) => match &e.declaration {
            Declaration::ClassDeclaration(c) => TopLevel::ExportedClass(
                c.id.as_ref().map(|id| id.name.to_string()), c.span.start),
            _ => TopLevel::Other,
        },
        _ => TopLevel::Other,
    }).collect();
    let complaints = parsed.diagnostics.iter().map(|d| Diagnostic {
        message: d.message.to_string(),
        offsets: d.labels.iter().map(|l| l.offset()).collect(),
    }).collect();
    Parsed { statements, complaints }
}

/// The first class at or behind statement `i` that is exported without a name.
pub open spec fn nameless_class(statements: Seq<TopLevelView>, i: int) -> Option<int>
    decreases statements.len() - i,
{
    if i < 0 || i >= statements.len() {
        None
    } else if statements[i] matches TopLevelView::ExportedClass(None, _) {
        Some(i)
    } else {
        nameless_class(statements, i + 1)
    }
}

/// Why a module is refused, if it is: the parser's first complaint, or, where it has none, an
/// exported class without a name, which could not be reached under any.
pub open spec fn refusal(p: ParsedView) -> Option<DiagnosticView> {
    if p.complaints.len() > 0 {
        Some(p.complaints[0])
    } else {
        match nameless_class(p.statements, 0) {
            Some(i) => Some(
                DiagnosticView {
                    message: "A class name is required."@,
                    offsets: seq![p.statements[i]->ExportedClass_1],
                },
            ),
            None => None,
        }
    }
}

/// Why a module is refused, if it is.
pub fn refuse(parsed: Parsed) -> (r: Option<Diagnostic>)
    ensures
        match r {
            Some(d) => refusal(parsed@) == Some(d@),
            None => refusal(parsed@) is None,
        },
{
    let ghost p = parsed@;
    let mut complaints = parsed.complaints;
    if complaints.len() > 0 {
        assert(p.complaints[0] == complaints@[0]@);
        return Some(complaints.remove(0));
    }
    let statements = parsed.statements;
    for i in 0..statements.len()
        invariant
            p == parsed@,
            p.complaints.len() == 0,
            p.statements == statement_views(statements@),
            nameless_class(p.statements, 0) == nameless_class(p.statements, i as int),
    {
        assert(p.statements[i as int] == statements@[i as int]@);
        if let TopLevel::ExportedClass(None, offset) = &statements[i] {
            let mut offsets: Vec<u32> = Vec::new();
            offsets.push(*offset);
            assert(offsets@ =~= seq![*offset]);
            return Some(Diagnostic { message: "A class name is required.".to_owned(), offsets });
        }
    }
    None
}

/// What oxc makes of a module that is not refused: the rewritten body, and the specifiers it imports
/// statically. `ModuleRunnerTransform::transform` and `Codegen::build` stand behind this name, over
/// the program of `Parser::parse` and the scoping of `SemanticBuilder::build`, since each works on
/// the arena of the one before it.
pub uninterp spec fn rewritten(source: Seq<char>) -> (Seq<char>, Set<Seq<char>>);

/// oxc's rewriting of an ES module: `Parser::parse`, `SemanticBuilder::build`,
/// `ModuleRunnerTransform::transform` over the program with that scoping, and `Codegen::build` on
/// what comes out. The transform takes the name of every exported class for granted, so a module
/// with one that has none is left out. The outcome depends on the source alone, but for the order of
/// the specifiers, which is that of a hash set; each is handed out once.
#[verifier::external_body]
fn rewrite(source: &str) -> (r: (String, Vec<String>))
    requires
        parsed_of(source@).complaints.len() == 0,
        nameless_class(parsed_of(source@).statements, 0) is None,
    ensures
        text::texts(r.1@).no_duplicates(),
        rewritten(source@) == (r.0@, text::texts(r.1@).to_set()),
{
    let arena = Allocator::default();
    let mut program = Parser::new(&arena, source, SourceType::mjs()).parse().program;
    let scoping = SemanticBuilder::new().build(&program).semantic.into_scoping();
    let (deps, _) = ModuleRunnerTransform::new().transform(&arena, &mut program, scoping);
    (Codegen::new().build(&program).code, deps.into_iter().collect())
}

/// What becomes of a source: the rewritten body and the specifiers it imports statically, or why it
/// is refused.
pub open spec fn runner_of(source: Seq<char>) -> Result<
    (Seq<char>, Set<Seq<char>>),
    DiagnosticView,
> {
    match refusal(parsed_of(source)) {
        Some(d) => Err(d),
        None => Ok(rewritten(source)),
    }
}

/// How many line feeds `bytes` holds.
pub open spec fn line_feeds(bytes: Seq<u8>) -> nat
    decreases bytes.len(),
{
    if bytes.len() == 0 {
        0
    } else if bytes.last() == 10 {
        line_feeds(bytes.drop_last()) + 1
    } else {
        line_feeds(bytes.drop_last())
    }
}

/// How many bytes follow the last line feed of `bytes`.
pub open spec fn since_line_feed(bytes: Seq<u8>) -> nat
    decreases bytes.len(),
{
    if bytes.len() == 0 || bytes.last() == 10 {
        0
    } else {
        since_line_feed(bytes.drop_last()) + 1
    }
}

/// What stands before `offset`; everything, for an offset behind the end.
pub open spec fn before(source: Seq<char>, offset: u32) -> Seq<u8> {
    let bytes = vstd::utf8::encode_utf8(source);
    if offset < bytes.len() {
        bytes.take(offset as int)
    } else {
        bytes
    }
}

/// The line and column of a byte offset, both counted from one, the column in bytes.
pub open spec fn place(source: Seq<char>, offset: u32) -> (nat, nat) {
    (line_feeds(before(source, offset)) + 1, since_line_feed(before(source, offset)) + 1)
}

/// The line and column of a byte offset, both counted from one, the column in bytes.
pub fn line_col(source: &str, offset: u32) -> (r: (u64, u64))
    ensures
        r.0 == place(source@, offset).0,
        r.1 == place(source@, offset).1,
{
    let bytes = source.as_bytes();
    let n: usize = if (offset as usize) < bytes.len() {
        offset as usize
    } else {
        bytes.len()
    };
    let mut line: u64 = 0;
    let mut col: u64 = 0;
    let ghost all = before(source@, offset);
    assert(all.len() == n);
    for i in 0..n
        invariant
            n <= bytes@.len(),
            n <= offset,
            n == all.len(),
            all == bytes@.take(n as int),
            line == line_feeds(all.take(i as int)),
            col == since_line_feed(all.take(i as int)),
            line <= i,
            col <= i,
    {
        assert(all.take(i + 1).drop_last() == all.take(i as int));
        assert(all.take(i + 1).last() == bytes@[i as int]);
        if bytes[i] == 10 {
            line = line + 1;
            col = 0;
        } else {
            col = col + 1;
        }
    }
    assert(all.take(n as int) == all);
    (line + 1, col + 1)
}

/// The message for the first complaint: its own, the module's key, and the line and column
/// where the complaint points anywhere.
pub open spec fn syntax_error(source: Seq<char>, key: Seq<char>, d: DiagnosticView) -> Seq<char> {
    if d.offsets.len() > 0 {
        let (line, col) = place(source, d.offsets[0]);
        d.message + " ("@ + key + ":"@ + text::decimal(line) + ":"@ + text::decimal(col) + ")"@
    } else {
        d.message + " ("@ + key + ")"@
    }
}

/// Whether `deps` lists the texts of `set`, each once, in code point order.
pub open spec fn lists_sorted(deps: Seq<Seq<char>>, set: Set<Seq<char>>) -> bool {
    &&& deps.to_set() == set
    &&& deps.no_duplicates()
    &&& vstd::relations::sorted_by(deps, order::by_text())
}

/// Whether an outcome is the one that the transform's own outcome leads to.
pub open spec fn wrapped(
    source: Seq<char>,
    key: Seq<char>,
    outcome: Result<(Seq<char>, Set<Seq<char>>), DiagnosticView>,
    r: Result<Transformed, String>,
) -> bool {
    match outcome {
        Ok((body, deps)) => r matches Ok(t) && t.code@ == WRAPPER_HEAD@ + body + WRAPPER_TAIL@
            && lists_sorted(text::texts(t.deps@), deps),
        Err(d) => r matches Err(e) && e@ == syntax_error(source, key, d),
    }
}

/// The message for a complaint.
fn describe(source: &str, key: &str, d: &Diagnostic) -> (r: String)
    ensures
        r@ == syntax_error(source@, key@, d@),
{
    let mut m = text::concat3(d.message.as_str(), " (", key);
    if d.offsets.len() > 0 {
        let (line, col) = line_col(source, d.offsets[0]);
        m.append(":");
        m.append(text::decimal_text(line).as_str());
        m.append(":");
        m.append(text::decimal_text(col).as_str());
    }
    m.append(")");
    m
}

/// The specifiers in code point order.
fn sorted_deps(deps: &Vec<String>) -> (r: Vec<String>)
    requires
        text::texts(deps@).no_duplicates(),
    ensures
        lists_sorted(text::texts(r@), text::texts(deps@).to_set()),
{
    let ghost all = text::texts(deps@);
    let mut rows: Vec<Vec<char>> = Vec::new();
    for i in 0..deps.len()
        invariant
            all == text::texts(deps@),
            text::rows(rows@) == all.take(i as int),
    {
        let ghost so_far = rows@;
        rows.push(text::chars_of(deps[i].as_str()));
        assert(text::rows(rows@) =~= text::rows(so_far).push(all[i as int]));
        assert(all.take(i + 1) =~= all.take(i as int).push(all[i as int]));
    }
    assert(all.take(all.len() as int) == all);
    let out = order::sorted_strings(&rows);
    proof {
        order::lemma_text_order();
        order::lemma_sort_sorted(all, order::by_text());
        order::lemma_sort_keeps_distinct(all, order::by_text());
    }
    out
}

/// The wrapper of a module, given what became of it: the body between head and tail and the sorted
/// specifiers, or the message for the complaint it is refused with.
pub fn wrap_outcome(
    source: &str,
    key: &str,
    outcome: Result<(String, Vec<String>), Diagnostic>,
) -> (r: Result<Transformed, String>)
    requires
        outcome matches Ok((_, deps)) ==> text::texts(deps@).no_duplicates(),
    ensures
        wrapped(
            source@,
            key@,
            match outcome {
                Ok((body, deps)) => Ok((body@, text::texts(deps@).to_set())),
                Err(d) => Err(d@),
            },
            r,
        ),
{
    match outcome {
        Ok((body, deps)) => {
            let code = text::concat3(WRAPPER_HEAD, body.as_str(), WRAPPER_TAIL);
            Ok(Transformed { code, deps: sorted_deps(&deps) })
        },
        Err(d) => Err(describe(source, key, &d)),
    }
}

/// Transform an ES module into the runner's async wrapper. `Err` carries a SyntaxError message with
/// the first error's location.
pub fn transform(source: &str, key: &str) -> (r: Result<Transformed, String>)
    ensures
        wrapped(source@, key@, runner_of(source@), r),
        r is Ok == (parsed_of(source@).complaints.len() == 0 && nameless_class(
            parsed_of(source@).statements,
            0,
        ) is None),
{
    match refuse(parse(source)) {
        Some(d) => wrap_outcome(source, key, Err(d)),
        None => wrap_outcome(source, key, Ok(rewrite(source))),
    }
}

/// A module is refused exactly where the parser complains, or where one of its exported classes has
/// no name: no other early error keeps it from being transformed.
pub proof fn law_when_modules_are_refused(p: ParsedView)
    ensures
        refusal(p) is Some <==> p.complaints.len() > 0 || exists|i: int|
            0 <= i < p.statements.len() && (#[trigger] p.statements[i]
                matches TopLevelView::ExportedClass(None, _)),
{
    lemma_nameless(p.statements, 0);
}

proof fn lemma_nameless(statements: Seq<TopLevelView>, i: int)
    requires
        0 <= i,
    ensures
        match nameless_class(statements, i) {
            Some(k) => i <= k < statements.len() && (statements[k]
                matches TopLevelView::ExportedClass(None, _)),
            None => forall|k: int|
                i <= k < statements.len() ==> !(#[trigger] statements[k]
                    matches TopLevelView::ExportedClass(None, _)),
        },
    decreases statements.len() - i,
{
    if i < statements.len() {
        lemma_nameless(statements, i + 1);
    }
}

/// Whether one place, by line and column, comes before another.
pub open spec fn comes_before(a: (nat, nat), b: (nat, nat)) -> bool {
    a.0 < b.0 || (a.0 == b.0 && a.1 < b.1)
}

/// Places come in the order of the offsets: a later offset within the source has a later line, or
/// the same line and a later column. So no two offsets share a place.
pub proof fn law_places_grow_with_offsets(source: Seq<char>, a: u32, b: u32)
    requires
        a < b <= vstd::utf8::encode_utf8(source).len(),
    ensures
        comes_before(place(source, a), place(source, b)),
{
    let bytes = vstd::utf8::encode_utf8(source);
    assert(bytes.take(bytes.len() as int) =~= bytes);
    lemma_place_grows(bytes, a as int, b as int);
}

proof fn lemma_place_grows(bytes: Seq<u8>, a: int, b: int)
    requires
        0 <= a < b <= bytes.len(),
    ensures
        comes_before(
            (line_feeds(bytes.take(a)), since_line_feed(bytes.take(a))),
            (line_feeds(bytes.take(b)), since_line_feed(bytes.take(b))),
        ),
    decreases b,
{
    assert(bytes.take(b).drop_last() =~= bytes.take(b - 1));
    if a < b - 1 {
        lemma_place_grows(bytes, a, b - 1);
    }
}

/// Which specifiers a module imports settles how they are listed.
pub proof fn law_deps_have_one_listing(a: Seq<Seq<char>>, b: Seq<Seq<char>>, set: Set<Seq<char>>)
    requires
        lists_sorted(a, set),
        lists_sorted(b, set),
    ensures
        a == b,
{
    order::lemma_text_order();
    order::lemma_distinct_same_set(a, b);
    vstd::seq_lib::lemma_sorted_unique(a, b, order::by_text());
}

/// A module is refused by its first complaint or, without any, at its first exported class that has no
/// name.
pub proof fn law_refusals_name_the_first_fault(p: ParsedView)
    ensures
        p.complaints.len() > 0 ==> refusal(p) == Some(p.complaints[0]),
        p.complaints.len() == 0 ==> (refusal(p) matches Some(d) ==> d.message
            == "A class name is required."@ && exists|i: int|
            0 <= i < p.statements.len() && (#[trigger] p.statements[i]
                matches TopLevelView::ExportedClass(None, at) && d.offsets == seq![at]) && forall|
                j: int,
            |
                0 <= j < i ==> !(#[trigger] p.statements[j] matches TopLevelView::ExportedClass(
                    None,
                    _,
                ))),
{
    lemma_nameless_first(p.statements, 0);
    if p.complaints.len() == 0 {
        if let Some(i) = nameless_class(p.statements, 0) {
            let at = p.statements[i]->ExportedClass_1;
            assert(p.statements[i] matches TopLevelView::ExportedClass(None, at2) && at2 == at);
        }
    }
}

proof fn lemma_nameless_first(statements: Seq<TopLevelView>, i: int)
    requires
        0 <= i <= statements.len(),
    ensures
        nameless_class(statements, i) matches Some(k) ==> i <= k < statements.len() && (
        statements[k] matches TopLevelView::ExportedClass(None, _)) && forall|j: int|
            i <= j < k ==> !(#[trigger] statements[j] matches TopLevelView::ExportedClass(None, _)),
        nameless_class(statements, i) is None ==> forall|j: int|
            i <= j < statements.len() ==> !(#[trigger] statements[j]
                matches TopLevelView::ExportedClass(None, _)),
    decreases statements.len() - i,
{
    if i < statements.len() {
        lemma_nameless_first(statements, i + 1);
    }
}

/// The line of a place is one more than the line feeds before it, and its column one more than the
/// bytes since the last of them.
pub proof fn law_places_count_lines_and_bytes(source: Seq<char>, offset: u32, line: Seq<u8>, rest: Seq<u8>)
    requires
        vstd::utf8::encode_utf8(source) == line + rest,
        line.len() == offset || (line.len() < offset && rest.len() == 0),
    ensures
        place(source, offset).0 == line.filter(|b: u8| b == 10).len() + 1,
        forall|i: int|
            0 <= i < place(source, offset).1 - 1 ==> line[#[trigger] (line.len() - 1 - i)] != 10,
        place(source, offset).1 - 1 < line.len() ==> line[line.len() - place(source, offset).1] == 10,
        1 <= place(source, offset).1 <= line.len() + 1,
{
    let bytes = vstd::utf8::encode_utf8(source);
    assert(before(source, offset) =~= line) by {
        if offset < bytes.len() {
            assert(bytes.take(offset as int) =~= line);
        } else {
            assert(rest.len() == 0);
            assert(line + rest =~= line);
        }
    }
    lemma_line_feeds_filtered(line);
    lemma_since_line_feed(line);
}

proof fn lemma_line_feeds_filtered(bytes: Seq<u8>)
    ensures
        line_feeds(bytes) == bytes.filter(|b: u8| b == 10).len(),
    decreases bytes.len(),
{
    reveal(Seq::filter);
    if bytes.len() > 0 {
        lemma_line_feeds_filtered(bytes.drop_last());
    }
}

proof fn lemma_since_line_feed(bytes: Seq<u8>)
    ensures
        since_line_feed(bytes) <= bytes.len(),
        forall|i: int|
            0 <= i < since_line_feed(bytes) ==> bytes[#[trigger] (bytes.len() - 1 - i)] != 10,
        since_line_feed(bytes) < bytes.len() ==> bytes[bytes.len() - 1 - since_line_feed(bytes)]
            == 10,
    decreases bytes.len(),
{
    if bytes.len() > 0 && bytes.last() != 10 {
        let d = bytes.drop_last();
        lemma_since_line_feed(d);
        assert forall|i: int| 0 <= i < since_line_feed(bytes) implies bytes[#[trigger] (bytes.len()
            - 1 - i)] != 10 by {
            if i > 0 {
                let h = i - 1;
                assert(d[d.len() - 1 - h] != 10);
                assert(bytes[bytes.len() - 1 - i] == d[d.len() - 1 - h]);
            }
        }
        assert(since_line_feed(d) < d.len() ==> bytes[d.len() - 1 - since_line_feed(d)] == d[d.len()
            - 1 - since_line_feed(d)]);
    }
}

/// An error says what is wrong and in which module, with the line and the column of the first place
/// that it labels, if it labels any.
pub proof fn law_errors_say_where(source: Seq<char>, key: Seq<char>, d: DiagnosticView)
    ensures
        d.offsets.len() == 0 ==> syntax_error(source, key, d) == d.message + " ("@ + key + ")"@,
        d.offsets.len() > 0 ==> syntax_error(source, key, d) == d.message + " ("@ + key + ":"@
            + text::decimal(place(source, d.offsets[0]).0) + ":"@ + text::decimal(
            place(source, d.offsets[0]).1,
        ) + ")"@,
{
}

/// A transformed module is its rewritten body as that of an async function of the six names that the
/// module runner hands in, strict, with its dependencies once each in code point order; a refused one
/// is its error.
pub proof fn law_modules_are_wrapped(
    source: Seq<char>,
    key: Seq<char>,
    body: Seq<char>,
    deps: Set<Seq<char>>,
    d: DiagnosticView,
    r: Result<Transformed, String>,
)
    ensures
        wrapped(source, key, Ok((body, deps)), r) ==> (r matches Ok(t) && t.code@
            == "(async function (__vite_ssr_exports__, __vite_ssr_import_meta__, __vite_ssr_import__, __vite_ssr_dynamic_import__, __vite_ssr_exportAll__, __vite_ssr_exportName__) {\"use strict\";\n"@
            + body + "\n})"@ && text::texts(t.deps@).to_set() == deps && text::texts(
            t.deps@,
        ).no_duplicates() && forall|i: int, j: int|
            0 <= i < j < t.deps@.len() ==> order::text_le(
                (#[trigger] t.deps@[i])@,
                (#[trigger] t.deps@[j])@,
            )),
        wrapped(source, key, Err(d), r) ==> (r matches Err(e) && e@ == syntax_error(source, key, d)),
{
    if wrapped(source, key, Ok((body, deps)), r) {
        let t = r->Ok_0;
        let all = text::texts(t.deps@);
        assert forall|i: int, j: int| 0 <= i < j < t.deps@.len() implies order::text_le(
            (#[trigger] t.deps@[i])@,
            (#[trigger] t.deps@[j])@,
        ) by {
            assert(order::by_text()(all[i], all[j]));
        }
    }
}

/// A source is refused where its parse is, and otherwise rewritten.
pub proof fn law_sources_are_refused_or_rewritten(source: Seq<char>)
    ensures
        refusal(parsed_of(source)) matches Some(d) ==> runner_of(source) == Err::<
            (Seq<char>, Set<Seq<char>>),
            DiagnosticView,
        >(d),
        refusal(parsed_of(source)) is None ==> runner_of(source) == Ok::<
            (Seq<char>, Set<Seq<char>>),
            DiagnosticView,
        >(rewritten(source)),
{
}

/// What a parse gives reads field by field.
pub proof fn law_parses_read_field_by_field(
    p: Parsed,
    d: Diagnostic,
    s: TopLevel,
    i: int,
)
    ensures
        d@.message == d.message@,
        d@.offsets == d.offsets@,
        s is Other <==> s@ is Other,
        s matches TopLevel::ExportedClass(name, at) ==> s@ == TopLevelView::ExportedClass(
            text::option_text(name),
            at,
        ),
        p@.statements.len() == p.statements@.len(),
        0 <= i < p.statements@.len() ==> p@.statements[i] == p.statements@[i]@,
        p@.complaints.len() == p.complaints@.len(),
        0 <= i < p.complaints@.len() ==> p@.complaints[i] == p.complaints@[i]@,
{
}

/// The place of an offset in a source, counted from one.
pub proof fn law_lines_and_columns_count_from_one(source: &str, offset: u32, r: (u64, u64))
    requires
        call_ensures(line_col, (source, offset), r),
    ensures
        r.0 >= 1,
        r.1 >= 1,
        offset == 0 ==> r.0 == 1 && r.1 == 1,
        (r.0 as nat, r.1 as nat) == place(source@, offset),
{
    if offset == 0 {
        assert(before(source@, offset) =~= Seq::empty());
    }
}

/// A module is transformed exactly where nothing in it is complained of and every exported class has a
/// name; otherwise the error is the first complaint, or that a class needs a name, and its place.
pub proof fn law_transforms_succeed_or_say_why(
    source: &str,
    key: &str,
    r: Result<Transformed, String>,
)
    requires
        call_ensures(transform, (source, key), r),
    ensures
        r is Ok <==> refusal(parsed_of(source@)) is None,
        r matches Err(e) ==> (refusal(parsed_of(source@)) matches Some(d) && e@ == syntax_error(
            source@,
            key@,
            d,
        )),
        r matches Ok(t) ==> t.code@ == WRAPPER_HEAD@ + rewritten(source@).0 + WRAPPER_TAIL@
            && text::texts(t.deps@).to_set() == rewritten(source@).1,
{
}

/// What is refused, and why.
pub proof fn law_parsed_modules_are_refused_by_their_first_fault(
    parsed: Parsed,
    r: Option<Diagnostic>,
)
    requires
        call_ensures(refuse, (parsed,), r),
    ensures
        parsed.complaints@.len() > 0 ==> (r matches Some(d) && d@ == parsed.complaints@[0]@),
        parsed.complaints@.len() == 0 ==> (r matches Some(d) ==> d.message@
            == "A class name is required."@),
        r is Some <==> parsed.complaints@.len() > 0 || exists|i: int|
            0 <= i < parsed@.statements.len() && (#[trigger] parsed@.statements[i]
                matches TopLevelView::ExportedClass(None, _)),
{
    law_when_modules_are_refused(parsed@);
    law_refusals_name_the_first_fault(parsed@);
    assert(parsed@.complaints.len() == parsed.complaints@.len());
}

/// What comes of a rewriting is wrapped, with its dependencies sorted; what comes of a refusal is its
/// error.
pub proof fn law_outcomes_are_wrapped(
    source: &str,
    key: &str,
    outcome: Result<(String, Vec<String>), Diagnostic>,
    r: Result<Transformed, String>,
)
    requires
        call_ensures(wrap_outcome, (source, key, outcome), r),
    ensures
        r is Ok <==> outcome is Ok,
        outcome matches Ok((body, deps)) ==> (r matches Ok(t) && t.code@ == WRAPPER_HEAD@ + body@
            + WRAPPER_TAIL@ && text::texts(t.deps@).to_set() == text::texts(deps@).to_set()),
        outcome matches Err(d) ==> (r matches Err(e) && e@ == syntax_error(source@, key@, d@)),
{
}

} // verus!
