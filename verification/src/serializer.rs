//! Writes a resource back as FTL text.
use crate::ascii::{
    ASTERISK, CLOSE_BRACE, CLOSE_BRACKET, CLOSE_PAREN, COLON, COMMA, DOLLAR, DOT, EQUALS, GREATER,
    HASH, LF, MINUS, OPEN_BRACE, OPEN_BRACKET, OPEN_PAREN, QUOTE, SPACE,
};
use crate::model::{
    Attribute, CallArguments, Entry, Expression, InlineExpression, Message, NamedArgument, Pattern,
    PatternElement, Term, Variant, VariantKey,
};
use crate::ast;
use crate::model;
use crate::text::{leading_space_len, string_from_bytes, trim_end, trim_start, trimmed_len};
use vstd::prelude::*;

verus! {

/// The model of a [`TextWriter`]: the text written so far and the indent level.
pub struct Writer {
    pub text: Seq<u8>,
    pub level: nat,
}

/// The indentation of a line at `level`: four spaces a level.
pub open spec fn indentation(level: nat) -> Seq<u8> {
    Seq::new(4 * level, |i: int| SPACE)
}

/// The text ends a line.
pub open spec fn at_line_start(text: Seq<u8>) -> bool {
    text.len() > 0 && text.last() == LF
}

/// Writes `item`; at the start of a line, the line is first indented and the item
/// loses its leading white space.
pub open spec fn write(w: Writer, item: Seq<u8>) -> Writer {
    if at_line_start(w.text) {
        Writer { text: w.text + indentation(w.level) + trim_start(item), ..w }
    } else {
        Writer { text: w.text + item, ..w }
    }
}

pub open spec fn newline(w: Writer) -> Writer {
    Writer { text: w.text.push(LF), ..w }
}

pub open spec fn indent(w: Writer) -> Writer {
    Writer { level: w.level + 1, ..w }
}

pub open spec fn dedent(w: Writer) -> Writer {
    Writer { level: (w.level - 1) as nat, ..w }
}

/// An expression is a select expression, possibly inside placeables.
pub open spec fn is_select(e: Expression) -> bool
    decreases e,
{
    match e {
        Expression::Select { .. } => true,
        Expression::Inline(InlineExpression::Placeable(b)) => is_select(*b),
        Expression::Inline(_) => false,
    }
}

/// An element that makes its pattern start on a line of its own: a text with a line
/// break, or a select expression.
pub open spec fn is_multiline(e: PatternElement) -> bool {
    match e {
        PatternElement::Text(t) => t.contains(LF),
        PatternElement::Placeable(x) => is_select(x),
    }
}

pub open spec fn starts_on_newline(p: Pattern) -> bool {
    exists|i: int| 0 <= i < p.elements.len() && is_multiline(#[trigger] p.elements[i])
}

/// Writes a pattern after `=` or a variant key: on the same line after a space, or
/// indented on the next line where it is multiline.
pub open spec fn ser_pattern(w: Writer, p: Pattern) -> Writer
    decreases p, 2nat,
{
    if starts_on_newline(p) {
        dedent(ser_elements(indent(newline(w)), p.elements))
    } else {
        ser_elements(write(w, seq![SPACE]), p.elements)
    }
}

pub open spec fn ser_elements(w: Writer, s: Seq<PatternElement>) -> Writer
    decreases s, 1nat,
{
    if s.len() == 0 {
        w
    } else {
        ser_element(ser_elements(w, s.drop_last()), s.last())
    }
}

/// A text as it is; a placeable in braces (a nested placeable in double braces, a
/// select expression without the space before the closing brace).
pub open spec fn ser_element(w: Writer, e: PatternElement) -> Writer
    decreases e, 0nat,
{
    match e {
        PatternElement::Text(t) => write(w, t),
        PatternElement::Placeable(x) => match x {
            Expression::Inline(InlineExpression::Placeable(b)) => write(
                ser_expr(write(w, seq![OPEN_BRACE, OPEN_BRACE, SPACE]), *b),
                seq![SPACE, CLOSE_BRACE, CLOSE_BRACE],
            ),
            Expression::Select { .. } => write(
                ser_expr(write(w, seq![OPEN_BRACE, SPACE]), x),
                seq![CLOSE_BRACE],
            ),
            Expression::Inline(_) => write(
                ser_expr(write(w, seq![OPEN_BRACE, SPACE]), x),
                seq![SPACE, CLOSE_BRACE],
            ),
        },
    }
}

pub open spec fn ser_expr(w: Writer, e: Expression) -> Writer
    decreases e, 3nat,
{
    match e {
        Expression::Inline(i) => ser_inline(w, i),
        Expression::Select { selector, variants } => dedent(
            ser_variants(
                indent(newline(write(ser_inline(w, selector), seq![SPACE, MINUS, GREATER]))),
                variants,
            ),
        ),
    }
}

/// An optional `.attribute` after a reference.
pub open spec fn ser_accessor(w: Writer, attribute: Option<Seq<u8>>) -> Writer {
    match attribute {
        Some(a) => write(write(w, seq![DOT]), a),
        None => w,
    }
}

pub open spec fn ser_inline(w: Writer, i: InlineExpression) -> Writer
    decreases i, 2nat,
{
    match i {
        InlineExpression::StringLiteral(v) => write(write(write(w, seq![QUOTE]), v), seq![QUOTE]),
        InlineExpression::NumberLiteral(v) => write(w, v),
        InlineExpression::VariableReference(id) => write(write(w, seq![DOLLAR]), id),
        InlineExpression::FunctionReference { id, arguments } => match arguments {
            Some(a) => ser_args(write(w, id), a),
            None => write(w, id),
        },
        InlineExpression::MessageReference { id, attribute } => ser_accessor(write(w, id), attribute),
        InlineExpression::TermReference { id, attribute, arguments } => {
            let w1 = ser_accessor(write(write(w, seq![MINUS]), id), attribute);
            match arguments {
                Some(a) => ser_args(w1, a),
                None => w1,
            }
        },
        InlineExpression::Placeable(b) => write(ser_expr(write(w, seq![OPEN_BRACE]), *b), seq![CLOSE_BRACE]),
    }
}

/// The variants of a select expression, each on a line of its own.
pub open spec fn ser_variants(w: Writer, vs: Seq<Variant>) -> Writer
    decreases vs, 1nat,
{
    if vs.len() == 0 {
        w
    } else {
        newline(ser_variant(ser_variants(w, vs.drop_last()), vs.last()))
    }
}

pub open spec fn key_text(k: VariantKey) -> Seq<u8> {
    match k {
        VariantKey::Identifier(n) => n,
        VariantKey::NumberLiteral(v) => v,
    }
}

pub open spec fn ser_variant(w: Writer, v: Variant) -> Writer
    decreases v, 0nat,
{
    let w1 = if v.default {
        write(w, seq![ASTERISK])
    } else {
        w
    };
    ser_pattern(
        write(write(write(w1, seq![OPEN_BRACKET]), key_text(v.key)), seq![CLOSE_BRACKET]),
        v.value,
    )
}

/// Call arguments: `(`, the positional then the named ones, separated by `, `, and `)`.
pub open spec fn ser_args(w: Writer, a: CallArguments) -> Writer
    decreases a, 1nat,
{
    write(
        ser_nameds(ser_positionals(write(w, seq![OPEN_PAREN]), a.positional), a.named, a.positional.len() > 0),
        seq![CLOSE_PAREN],
    )
}

pub open spec fn ser_positionals(w: Writer, ps: Seq<InlineExpression>) -> Writer
    decreases ps, 0nat,
{
    if ps.len() == 0 {
        w
    } else {
        let w1 = ser_positionals(w, ps.drop_last());
        ser_inline(
            if ps.len() > 1 {
                write(w1, seq![COMMA, SPACE])
            } else {
                w1
            },
            ps.last(),
        )
    }
}

/// The named arguments; `written` where positional ones came before them.
pub open spec fn ser_nameds(w: Writer, ns: Seq<NamedArgument>, written: bool) -> Writer
    decreases ns, 0nat,
{
    if ns.len() == 0 {
        w
    } else {
        let w1 = ser_nameds(w, ns.drop_last(), written);
        let w2 = if written || ns.len() > 1 {
            write(w1, seq![COMMA, SPACE])
        } else {
            w1
        };
        ser_inline(write(write(w2, ns.last().name), seq![COLON, SPACE]), ns.last().value)
    }
}

/// The `#` that start the lines of a comment of `level`.
pub open spec fn comment_prefix(level: nat) -> Seq<u8> {
    Seq::new(level, |i: int| HASH)
}

/// A comment line: the prefix, then a space and the line unless it is blank.
pub open spec fn comment_line(w: Writer, prefix: Seq<u8>, line: Seq<u8>) -> Writer {
    if trim_end(line).len() == 0 {
        newline(write(w, prefix))
    } else {
        newline(write(write(write(w, prefix), seq![SPACE]), line))
    }
}

pub open spec fn comment_lines(w: Writer, prefix: Seq<u8>, lines: Seq<Seq<u8>>) -> Writer
    decreases lines.len(),
{
    if lines.len() == 0 {
        w
    } else {
        comment_line(comment_lines(w, prefix, lines.drop_last()), prefix, lines.last())
    }
}

/// A comment, after a blank line where entries came before it.
pub open spec fn ser_comment(w: Writer, has_entries: bool, prefix: Seq<u8>, lines: Seq<Seq<u8>>) -> Writer {
    comment_lines(
        if has_entries {
            newline(w)
        } else {
            w
        },
        prefix,
        lines,
    )
}

pub open spec fn ser_attribute(w: Writer, a: Attribute) -> Writer {
    ser_pattern(write(write(write(w, seq![DOT]), a.id), seq![SPACE, EQUALS]), a.value)
}

pub open spec fn ser_attribute_list(w: Writer, attrs: Seq<Attribute>) -> Writer
    decreases attrs.len(),
{
    if attrs.len() == 0 {
        w
    } else {
        ser_attribute(newline(ser_attribute_list(w, attrs.drop_last())), attrs.last())
    }
}

/// The attributes, each indented on a line of its own.
pub open spec fn ser_attributes(w: Writer, attrs: Seq<Attribute>) -> Writer {
    if attrs.len() == 0 {
        w
    } else {
        dedent(ser_attribute_list(indent(w), attrs))
    }
}

pub open spec fn ser_entry_comment(w: Writer, has_entries: bool, c: Option<Seq<Seq<u8>>>) -> Writer {
    match c {
        Some(lines) => ser_comment(w, has_entries, comment_prefix(1), lines),
        None => w,
    }
}

pub open spec fn ser_message(w: Writer, has_entries: bool, m: Message) -> Writer {
    let w1 = write(write(ser_entry_comment(w, has_entries, m.comment), m.id), seq![SPACE, EQUALS]);
    let w2 = match m.value {
        Some(p) => ser_pattern(w1, p),
        None => w1,
    };
    newline(ser_attributes(w2, m.attributes))
}

pub open spec fn ser_term(w: Writer, has_entries: bool, t: Term) -> Writer {
    let w1 = write(
        write(write(ser_entry_comment(w, has_entries, t.comment), seq![MINUS]), t.id),
        seq![SPACE, EQUALS],
    );
    newline(ser_attributes(ser_pattern(w1, t.value), t.attributes))
}

/// An entry; `has_entries` where entries were written before it.
pub open spec fn ser_entry(w: Writer, has_entries: bool, e: Entry) -> Writer {
    match e {
        Entry::Message(m) => ser_message(w, has_entries, m),
        Entry::Term(t) => ser_term(w, has_entries, t),
        Entry::Comment(c) => newline(ser_comment(w, has_entries, comment_prefix(1), c)),
        Entry::GroupComment(c) => newline(ser_comment(w, has_entries, comment_prefix(2), c)),
        Entry::ResourceComment(c) => newline(ser_comment(w, has_entries, comment_prefix(3), c)),
        Entry::Junk(c) => write(w, c),
    }
}

/// The entries of a resource, and whether any was written; junk is written only
/// `with_junk`.
pub open spec fn ser_entries(w: Writer, has_entries: bool, es: Seq<Entry>, with_junk: bool) -> (Writer, bool)
    decreases es.len(),
{
    if es.len() == 0 {
        (w, has_entries)
    } else {
        let (w1, h1) = ser_entries(w, has_entries, es.drop_last(), with_junk);
        if es.last() is Junk && !with_junk {
            (w1, h1)
        } else {
            (ser_entry(w1, h1, es.last()), true)
        }
    }
}

/// Serializing a pattern from indent level `level` keeps the level within `usize`.
pub open spec fn pattern_fits(p: Pattern, level: int) -> bool
    decreases p, 2nat,
{
    if starts_on_newline(p) {
        level < usize::MAX && forall|i: int|
            0 <= i < p.elements.len() ==> element_fits(#[trigger] p.elements[i], level + 1)
    } else {
        forall|i: int| 0 <= i < p.elements.len() ==> element_fits(#[trigger] p.elements[i], level)
    }
}

pub open spec fn element_fits(e: PatternElement, level: int) -> bool
    decreases e, 1nat,
{
    match e {
        PatternElement::Text(_) => true,
        PatternElement::Placeable(x) => expr_fits(x, level),
    }
}

pub open spec fn expr_fits(e: Expression, level: int) -> bool
    decreases e, 3nat,
{
    match e {
        Expression::Inline(i) => inline_fits(i, level),
        Expression::Select { selector, variants } => inline_fits(selector, level) && level
            < usize::MAX && forall|j: int|
            0 <= j < variants.len() ==> pattern_fits(#[trigger] variants[j].value, level + 1),
    }
}

pub open spec fn inline_fits(i: InlineExpression, level: int) -> bool
    decreases i, 2nat,
{
    match i {
        InlineExpression::FunctionReference { arguments: Some(a), .. } => args_fits(a, level),
        InlineExpression::TermReference { arguments: Some(a), .. } => args_fits(a, level),
        InlineExpression::Placeable(b) => expr_fits(*b, level),
        _ => true,
    }
}

pub open spec fn args_fits(a: CallArguments, level: int) -> bool
    decreases a, 1nat,
{
    &&& forall|j: int| 0 <= j < a.positional.len() ==> inline_fits(#[trigger] a.positional[j], level)
    &&& forall|j: int| 0 <= j < a.named.len() ==> inline_fits(#[trigger] a.named[j].value, level)
}

pub open spec fn attributes_fit(attrs: Seq<Attribute>, level: int) -> bool {
    attrs.len() == 0 || (level < usize::MAX && forall|j: int|
        0 <= j < attrs.len() ==> pattern_fits(#[trigger] attrs[j].value, level + 1))
}

pub open spec fn entry_fits(e: Entry, level: int) -> bool {
    match e {
        Entry::Message(m) => attributes_fit(m.attributes, level) && match m.value {
            Some(p) => pattern_fits(p, level),
            None => true,
        },
        Entry::Term(t) => pattern_fits(t.value, level) && attributes_fit(t.attributes, level),
        _ => true,
    }
}

/// Serializing the entries from indent level `level` keeps the level within `usize`.
pub open spec fn entries_fit(es: Seq<Entry>, level: int) -> bool {
    forall|j: int| 0 <= j < es.len() ==> entry_fits(#[trigger] es[j], level)
}

/// The entries that are not junk, in order.
pub open spec fn without_junk(es: Seq<Entry>) -> Seq<Entry>
    decreases es.len(),
{
    if es.len() == 0 {
        Seq::empty()
    } else if es.last() is Junk {
        without_junk(es.drop_last())
    } else {
        without_junk(es.drop_last()).push(es.last())
    }
}

/// Written without junk, a resource reads as the same resource with its junk entries
/// taken out.
pub proof fn lemma_junk_left_out(w: Writer, has_entries: bool, es: Seq<Entry>)
    ensures
        ser_entries(w, has_entries, es, false) == ser_entries(w, has_entries, without_junk(es), false),
    decreases es.len(),
{
    if es.len() > 0 {
        lemma_junk_left_out(w, has_entries, es.drop_last());
        if !(es.last() is Junk) {
            let nj = without_junk(es.drop_last()).push(es.last());
            assert(nj.drop_last() =~= without_junk(es.drop_last()));
        }
    }
}

/// A text buffer that indents each line it writes on.
#[derive(Debug)]
pub struct TextWriter {
    pub buffer: Vec<u8>,
    pub indent_level: usize,
}

impl View for TextWriter {
    type V = Writer;

    open spec fn view(&self) -> Writer {
        Writer { text: self.buffer@, level: self.indent_level as nat }
    }
}

impl Default for TextWriter {
    fn default() -> (r: Self)
        ensures
            r@ == (Writer { text: Seq::empty(), level: 0 }),
    {
        TextWriter { buffer: Vec::new(), indent_level: 0 }
    }
}

impl TextWriter {
    pub fn indent(&mut self)
        requires
            old(self).indent_level < usize::MAX,
        ensures
            final(self)@ == indent(old(self)@),
    {
        self.indent_level += 1;
    }

    /// Goes back one level; the writer must have been indented.
    pub fn dedent(&mut self)
        requires
            old(self).indent_level > 0,
        ensures
            final(self)@ == dedent(old(self)@),
    {
        self.indent_level -= 1;
    }

    fn write_indent(&mut self)
        ensures
            final(self)@ == (Writer {
                text: old(self)@.text + indentation(old(self)@.level),
                ..old(self)@
            }),
    {
        let mut i: usize = 0;
        while i < self.indent_level
            invariant
                i <= self.indent_level,
                self.indent_level == old(self).indent_level,
                self.buffer@ == old(self).buffer@ + indentation(i as nat),
            decreases self.indent_level - i,
        {
            let ghost b0 = self.buffer@;
            self.buffer.push(SPACE);
            self.buffer.push(SPACE);
            self.buffer.push(SPACE);
            self.buffer.push(SPACE);
            assert(self.buffer@ =~= old(self).buffer@ + indentation((i + 1) as nat));
            i += 1;
        }
    }

    pub fn newline(&mut self)
        ensures
            final(self)@ == newline(old(self)@),
    {
        self.buffer.push(LF);
    }

    /// Writes `item`, indenting it where it starts a line.
    pub fn write_literal(&mut self, item: &[u8])
        ensures
            final(self)@ == write(old(self)@, item@),
    {
        let n = self.buffer.len();
        let mut start: usize = 0;
        if n > 0 && self.buffer[n - 1] == LF {
            self.write_indent();
            start = leading_space_len(item);
        }
        let mut i: usize = start;
        let ghost b0 = self.buffer@;
        while i < item.len()
            invariant
                start <= i <= item@.len(),
                self.indent_level == old(self).indent_level,
                self.buffer@ == b0 + item@.subrange(start as int, i as int),
            decreases item@.len() - i,
        {
            self.buffer.push(item[i]);
            assert(item@.subrange(start as int, i + 1) =~= item@.subrange(start as int, i as int).push(item@[i as int]));
            i += 1;
        }
        proof {
            if start == 0 {
                assert(item@.subrange(0, item@.len() as int) =~= item@);
            }
        }
    }

    /// Writes the byte `a`.
    fn write_byte(&mut self, a: u8)
        ensures
            final(self)@ == write(old(self)@, seq![a]),
    {
        let item = [a];
        assert(item@ =~= seq![a]);
        self.write_literal(&item);
    }

    /// Writes the bytes `a`, `b`.
    fn write_pair(&mut self, a: u8, b: u8)
        ensures
            final(self)@ == write(old(self)@, seq![a, b]),
    {
        let item = [a, b];
        assert(item@ =~= seq![a, b]);
        self.write_literal(&item);
    }

    /// Writes the bytes `a`, `b`, `c`.
    fn write_triple(&mut self, a: u8, b: u8, c: u8)
        ensures
            final(self)@ == write(old(self)@, seq![a, b, c]),
    {
        let item = [a, b, c];
        assert(item@ =~= seq![a, b, c]);
        self.write_literal(&item);
    }
}

/// What the serializer does with junk.
#[derive(Debug, Clone, Copy, PartialEq, Eq, Structural)]
pub struct Options {
    /// Write junk entries as they are, rather than leave them out.
    pub with_junk: bool,
}

impl Default for Options {
    fn default() -> (r: Self)
        ensures
            !r.with_junk,
    {
        Options { with_junk: false }
    }
}

#[derive(Debug, Clone, Copy, PartialEq, Eq, Structural)]
struct State {
    has_entries: bool,
}

/// Writes resources as FTL text.
#[derive(Debug)]
pub struct Serializer {
    writer: TextWriter,
    options: Options,
    state: State,
}

/// Whether `text` holds a line feed.
fn has_line_feed(text: &Vec<u8>) -> (r: bool)
    ensures
        r == text@.contains(LF),
{
    let mut i: usize = 0;
    while i < text.len()
        invariant
            i <= text@.len(),
            forall|k: int| 0 <= k < i ==> text@[k] != LF,
        decreases text@.len() - i,
    {
        if text[i] == LF {
            assert(text@[i as int] == LF);
            return true;
        }
        i += 1;
    }
    false
}

/// Whether an expression is a select expression, possibly inside placeables.
fn is_select_expr(expr: &ast::Expression<Vec<u8>>) -> (r: bool)
    ensures
        r == is_select(model::expr(*expr)),
    decreases expr,
{
    match expr {
        ast::Expression::SelectExpression { .. } => true,
        ast::Expression::InlineExpression(ast::InlineExpression::Placeable { expression }) => {
            is_select_expr(expression)
        },
        ast::Expression::InlineExpression(_) => false,
    }
}

/// Whether a pattern starts on a line of its own.
fn starts_on_new_line(pattern: &ast::Pattern<Vec<u8>>) -> (r: bool)
    ensures
        r == starts_on_newline(model::pattern(*pattern)),
{
    let ghost ms = model::pattern(*pattern).elements;
    proof {
        model::lemma_elements_index(pattern.elements@);
    }
    let mut i: usize = 0;
    while i < pattern.elements.len()
        invariant
            i <= pattern.elements@.len(),
            ms == model::pattern(*pattern).elements,
            ms == model::elements(pattern.elements@),
            ms.len() == pattern.elements@.len(),
            forall|k: int| 0 <= k < ms.len() ==> #[trigger] ms[k] == model::element(pattern.elements@[k]),
            forall|k: int| 0 <= k < i ==> !is_multiline(#[trigger] ms[k]),
        decreases pattern.elements@.len() - i,
    {
        let multiline = match &pattern.elements[i] {
            ast::PatternElement::TextElement { value } => has_line_feed(value),
            ast::PatternElement::Placeable { expression } => is_select_expr(expression),
        };
        if multiline {
            assert(is_multiline(ms[i as int]));
            return true;
        }
        i += 1;
    }
    false
}

impl Serializer {
    /// The text written so far and the indent level.
    pub closed spec fn writer(&self) -> Writer {
        self.writer@
    }

    /// Whether entries were written.
    pub closed spec fn has_entries(&self) -> bool {
        self.state.has_entries
    }

    pub closed spec fn options(&self) -> Options {
        self.options
    }

    pub fn new(options: Options) -> (r: Self)
        ensures
            r.writer() == (Writer { text: Seq::empty(), level: 0 }),
            !r.has_entries(),
            r.options() == options,
    {
        Serializer { writer: TextWriter::default(), options, state: State { has_entries: false } }
    }

    /// Writes the resource's entries; junk only where the options ask for it.
    /// Writing to memory does not fail.
    pub fn serialize_resource(&mut self, res: &ast::Resource<Vec<u8>>) -> (r: Result<(), std::fmt::Error>)
        requires
            entries_fit(model::entries(res.body@), old(self).writer().level as int),
        ensures
            r is Ok,
            (final(self).writer(), final(self).has_entries()) == ser_entries(
                old(self).writer(),
                old(self).has_entries(),
                model::entries(res.body@),
                old(self).options().with_junk,
            ),
            final(self).options() == old(self).options(),
    {
        let ghost es = model::entries(res.body@);
        let ghost w0 = self.writer@;
        let ghost h0 = self.state.has_entries;
        proof {
            model::lemma_entries_index(res.body@);
        }
        let mut i: usize = 0;
        assert(es.subrange(0, 0) =~= Seq::<Entry>::empty());
        while i < res.body.len()
            invariant
                i <= res.body@.len(),
                es == model::entries(res.body@),
                es.len() == res.body@.len(),
                forall|k: int| 0 <= k < es.len() ==> #[trigger] es[k] == model::entry(res.body@[k]),
                forall|k: int| 0 <= k < es.len() ==> entry_fits(#[trigger] es[k], w0.level as int),
                self.writer.indent_level == w0.level,
                (self.writer@, self.state.has_entries) == ser_entries(
                    w0,
                    h0,
                    es.subrange(0, i as int),
                    self.options.with_junk,
                ),
                self.options == old(self).options,
            decreases res.body@.len() - i,
        {
            assert(es[i as int] == model::entry(res.body@[i as int]));
            assert(es.subrange(0, i + 1).drop_last() =~= es.subrange(0, i as int));
            match &res.body[i] {
                ast::Entry::Junk { content } => {
                    if self.options.with_junk {
                        self.serialize_junk(content);
                        self.state.has_entries = true;
                    }
                },
                entry => {
                    self.serialize_entry(entry);
                    self.state.has_entries = true;
                },
            }
            i += 1;
        }
        assert(es.subrange(0, es.len() as int) =~= es);
        Ok(())
    }

    /// The text written so far.
    pub fn into_serialized_text(self) -> (r: String)
        ensures
            model::text_from(r, self.writer().text),
    {
        string_from_bytes(self.writer.buffer.as_slice())
    }

    fn serialize_entry(&mut self, entry: &ast::Entry<Vec<u8>>)
        requires
            entry_fits(model::entry(*entry), old(self).writer.indent_level as int),
        ensures
            final(self).writer@ == ser_entry(
                old(self).writer@,
                old(self).state.has_entries,
                model::entry(*entry),
            ),
            final(self).writer.indent_level == old(self).writer.indent_level,
            final(self).options == old(self).options,
            final(self).state == old(self).state,
    {
        match entry {
            ast::Entry::Message(msg) => self.serialize_message(msg),
            ast::Entry::Term(term) => self.serialize_term(term),
            ast::Entry::Comment(comment) => {
                self.serialize_comment(comment, 1);
                self.writer.newline();
            },
            ast::Entry::GroupComment(comment) => {
                self.serialize_comment(comment, 2);
                self.writer.newline();
            },
            ast::Entry::ResourceComment(comment) => {
                self.serialize_comment(comment, 3);
                self.writer.newline();
            },
            ast::Entry::Junk { content } => self.serialize_junk(content),
        }
    }

    fn serialize_junk(&mut self, junk: &Vec<u8>)
        ensures
            final(self).writer@ == write(old(self).writer@, junk@),
            final(self).writer.indent_level == old(self).writer.indent_level,
            final(self).options == old(self).options,
            final(self).state == old(self).state,
    {
        self.writer.write_literal(junk.as_slice());
    }

    /// Writes a comment of `level` (one to three `#`), after a blank line where
    /// entries came before it.
    fn serialize_comment(&mut self, comment: &ast::Comment<Vec<u8>>, level: usize)
        requires
            1 <= level <= 3,
        ensures
            final(self).writer@ == ser_comment(
                old(self).writer@,
                old(self).state.has_entries,
                comment_prefix(level as nat),
                comment.content.deep_view(),
            ),
            final(self).writer.indent_level == old(self).writer.indent_level,
            final(self).options == old(self).options,
            final(self).state == old(self).state,
    {
        let ghost lines = comment.content.deep_view();
        let ghost prefix = comment_prefix(level as nat);
        if self.state.has_entries {
            self.writer.newline();
        }
        let ghost w1 = self.writer@;
        let mut i: usize = 0;
        assert(lines.subrange(0, 0) =~= Seq::<Seq<u8>>::empty());
        while i < comment.content.len()
            invariant
                1 <= level <= 3,
                prefix == comment_prefix(level as nat),
                i <= comment.content@.len(),
                lines == comment.content.deep_view(),
                lines.len() == comment.content@.len(),
                self.writer.indent_level == old(self).writer.indent_level,
                self.writer@ == comment_lines(w1, prefix, lines.subrange(0, i as int)),
                self.options == old(self).options,
                self.state == old(self).state,
            decreases comment.content@.len() - i,
        {
            let line = &comment.content[i];
            assert(lines[i as int] == line@);
            if level == 1 {
                assert(prefix =~= seq![HASH]);
                self.writer.write_byte(HASH);
            } else if level == 2 {
                assert(prefix =~= seq![HASH, HASH]);
                self.writer.write_pair(HASH, HASH);
            } else {
                assert(prefix =~= seq![HASH, HASH, HASH]);
                self.writer.write_triple(HASH, HASH, HASH);
            }
            let n = trimmed_len(line.as_slice());
            if n != 0 {
                self.writer.write_byte(SPACE);
                self.writer.write_literal(line.as_slice());
            }
            self.writer.newline();
            assert(lines.subrange(0, i + 1).drop_last() =~= lines.subrange(0, i as int));
            i += 1;
        }
        assert(lines.subrange(0, lines.len() as int) =~= lines);
    }

    fn serialize_message(&mut self, msg: &ast::Message<Vec<u8>>)
        requires
            entry_fits(Entry::Message(model::message(*msg)), old(self).writer.indent_level as int),
        ensures
            final(self).writer@ == ser_message(
                old(self).writer@,
                old(self).state.has_entries,
                model::message(*msg),
            ),
            final(self).writer.indent_level == old(self).writer.indent_level,
            final(self).options == old(self).options,
            final(self).state == old(self).state,
    {
        match &msg.comment {
            Some(comment) => self.serialize_comment(comment, 1),
            None => {},
        }
        self.writer.write_literal(msg.id.name.as_slice());
        self.writer.write_pair(SPACE, EQUALS);
        match &msg.value {
            Some(value) => self.serialize_pattern(value),
            None => {},
        }
        self.serialize_attributes(&msg.attributes);
        self.writer.newline();
    }

    fn serialize_term(&mut self, term: &ast::Term<Vec<u8>>)
        requires
            entry_fits(Entry::Term(model::term(*term)), old(self).writer.indent_level as int),
        ensures
            final(self).writer@ == ser_term(
                old(self).writer@,
                old(self).state.has_entries,
                model::term(*term),
            ),
            final(self).writer.indent_level == old(self).writer.indent_level,
            final(self).options == old(self).options,
            final(self).state == old(self).state,
    {
        match &term.comment {
            Some(comment) => self.serialize_comment(comment, 1),
            None => {},
        }
        self.writer.write_byte(MINUS);
        self.writer.write_literal(term.id.name.as_slice());
        self.writer.write_pair(SPACE, EQUALS);
        self.serialize_pattern(&term.value);
        self.serialize_attributes(&term.attributes);
        self.writer.newline();
    }

    fn serialize_attributes(&mut self, attrs: &Vec<ast::Attribute<Vec<u8>>>)
        requires
            attributes_fit(model::attributes(attrs@), old(self).writer.indent_level as int),
        ensures
            final(self).writer@ == ser_attributes(old(self).writer@, model::attributes(attrs@)),
            final(self).writer.indent_level == old(self).writer.indent_level,
            final(self).options == old(self).options,
            final(self).state == old(self).state,
    {
        let ghost az = model::attributes(attrs@);
        proof {
            model::lemma_attributes_index(attrs@);
        }
        if attrs.len() == 0 {
            return;
        }
        self.writer.indent();
        let ghost w1 = self.writer@;
        let ghost level = self.writer.indent_level;
        let mut i: usize = 0;
        assert(az.subrange(0, 0) =~= Seq::<Attribute>::empty());
        while i < attrs.len()
            invariant
                i <= attrs@.len(),
                az == model::attributes(attrs@),
                az.len() == attrs@.len(),
                forall|k: int| 0 <= k < az.len() ==> #[trigger] az[k] == model::attribute(attrs@[k]),
                forall|k: int| 0 <= k < az.len() ==> pattern_fits(#[trigger] az[k].value, level as int),
                self.writer.indent_level == level,
                level > 0,
                self.writer@ == ser_attribute_list(w1, az.subrange(0, i as int)),
                self.options == old(self).options,
                self.state == old(self).state,
            decreases attrs@.len() - i,
        {
            assert(az[i as int] == model::attribute(attrs@[i as int]));
            self.writer.newline();
            self.serialize_attribute(&attrs[i]);
            assert(az.subrange(0, i + 1).drop_last() =~= az.subrange(0, i as int));
            i += 1;
        }
        assert(az.subrange(0, az.len() as int) =~= az);
        self.writer.dedent();
    }

    fn serialize_attribute(&mut self, attr: &ast::Attribute<Vec<u8>>)
        requires
            pattern_fits(model::attribute(*attr).value, old(self).writer.indent_level as int),
        ensures
            final(self).writer@ == ser_attribute(old(self).writer@, model::attribute(*attr)),
            final(self).writer.indent_level == old(self).writer.indent_level,
            final(self).options == old(self).options,
            final(self).state == old(self).state,
    {
        self.writer.write_byte(DOT);
        self.writer.write_literal(attr.id.name.as_slice());
        self.writer.write_pair(SPACE, EQUALS);
        self.serialize_pattern(&attr.value);
    }

    fn serialize_pattern(&mut self, pattern: &ast::Pattern<Vec<u8>>)
        requires
            pattern_fits(model::pattern(*pattern), old(self).writer.indent_level as int),
        ensures
            final(self).writer@ == ser_pattern(old(self).writer@, model::pattern(*pattern)),
            final(self).writer.indent_level == old(self).writer.indent_level,
            final(self).options == old(self).options,
            final(self).state == old(self).state,
        decreases pattern, 2nat,
    {
        let ghost ms = model::pattern(*pattern).elements;
        proof {
            model::lemma_elements_index(pattern.elements@);
        }
        let start_on_newline = starts_on_new_line(pattern);
        if start_on_newline {
            self.writer.newline();
            self.writer.indent();
        } else {
            self.writer.write_byte(SPACE);
        }
        let ghost w1 = self.writer@;
        let ghost level = self.writer.indent_level;
        let mut i: usize = 0;
        assert(ms.subrange(0, 0) =~= Seq::<PatternElement>::empty());
        while i < pattern.elements.len()
            invariant
                i <= pattern.elements@.len(),
                ms == model::elements(pattern.elements@),
                ms.len() == pattern.elements@.len(),
                forall|k: int| 0 <= k < ms.len() ==> #[trigger] ms[k] == model::element(pattern.elements@[k]),
                forall|k: int| 0 <= k < ms.len() ==> element_fits(#[trigger] ms[k], level as int),
                self.writer.indent_level == level,
                self.writer@ == ser_elements(w1, ms.subrange(0, i as int)),
                self.options == old(self).options,
                self.state == old(self).state,
            decreases pattern.elements@.len() - i,
        {
            assert(ms[i as int] == model::element(pattern.elements@[i as int]));
            self.serialize_element(&pattern.elements[i]);
            assert(ms.subrange(0, i + 1).drop_last() =~= ms.subrange(0, i as int));
            i += 1;
        }
        assert(ms.subrange(0, ms.len() as int) =~= ms);
        if start_on_newline {
            self.writer.dedent();
        }
    }

    fn serialize_element(&mut self, elem: &ast::PatternElement<Vec<u8>>)
        requires
            element_fits(model::element(*elem), old(self).writer.indent_level as int),
        ensures
            final(self).writer@ == ser_element(old(self).writer@, model::element(*elem)),
            final(self).writer.indent_level == old(self).writer.indent_level,
            final(self).options == old(self).options,
            final(self).state == old(self).state,
        decreases elem, 0nat,
    {
        match elem {
            ast::PatternElement::TextElement { value } => {
                self.writer.write_literal(value.as_slice());
            },
            ast::PatternElement::Placeable { expression } => {
                match expression {
                    ast::Expression::InlineExpression(
                        ast::InlineExpression::Placeable { expression: inner },
                    ) => {
                        self.writer.write_triple(OPEN_BRACE, OPEN_BRACE, SPACE);
                        self.serialize_expression(inner);
                        self.writer.write_triple(SPACE, CLOSE_BRACE, CLOSE_BRACE);
                    },
                    ast::Expression::SelectExpression { .. } => {
                        self.writer.write_pair(OPEN_BRACE, SPACE);
                        self.serialize_expression(expression);
                        self.writer.write_byte(CLOSE_BRACE);
                    },
                    ast::Expression::InlineExpression(_) => {
                        self.writer.write_pair(OPEN_BRACE, SPACE);
                        self.serialize_expression(expression);
                        self.writer.write_pair(SPACE, CLOSE_BRACE);
                    },
                }
            },
        }
    }

    fn serialize_expression(&mut self, expr: &ast::Expression<Vec<u8>>)
        requires
            expr_fits(model::expr(*expr), old(self).writer.indent_level as int),
        ensures
            final(self).writer@ == ser_expr(old(self).writer@, model::expr(*expr)),
            final(self).writer.indent_level == old(self).writer.indent_level,
            final(self).options == old(self).options,
            final(self).state == old(self).state,
        decreases expr, 3nat,
    {
        match expr {
            ast::Expression::InlineExpression(inline) => self.serialize_inline_expression(inline),
            ast::Expression::SelectExpression { selector, variants } => {
                self.serialize_select_expression(selector, variants, Ghost(*expr))
            },
        }
    }

    fn serialize_inline_expression(&mut self, expr: &ast::InlineExpression<Vec<u8>>)
        requires
            inline_fits(model::inline(*expr), old(self).writer.indent_level as int),
        ensures
            final(self).writer@ == ser_inline(old(self).writer@, model::inline(*expr)),
            final(self).writer.indent_level == old(self).writer.indent_level,
            final(self).options == old(self).options,
            final(self).state == old(self).state,
        decreases expr, 2nat,
    {
        match expr {
            ast::InlineExpression::StringLiteral { value } => {
                self.writer.write_byte(QUOTE);
                self.writer.write_literal(value.as_slice());
                self.writer.write_byte(QUOTE);
            },
            ast::InlineExpression::NumberLiteral { value } => {
                self.writer.write_literal(value.as_slice());
            },
            ast::InlineExpression::VariableReference { id } => {
                self.writer.write_byte(DOLLAR);
                self.writer.write_literal(id.name.as_slice());
            },
            ast::InlineExpression::FunctionReference { id, arguments } => {
                self.writer.write_literal(id.name.as_slice());
                match arguments {
                    Some(args) => self.serialize_call_arguments(args),
                    None => {},
                }
            },
            ast::InlineExpression::MessageReference { id, attribute } => {
                self.writer.write_literal(id.name.as_slice());
                match attribute {
                    Some(attr) => {
                        self.writer.write_byte(DOT);
                        self.writer.write_literal(attr.name.as_slice());
                    },
                    None => {},
                }
            },
            ast::InlineExpression::TermReference { id, attribute, arguments } => {
                self.writer.write_byte(MINUS);
                self.writer.write_literal(id.name.as_slice());
                match attribute {
                    Some(attr) => {
                        self.writer.write_byte(DOT);
                        self.writer.write_literal(attr.name.as_slice());
                    },
                    None => {},
                }
                match arguments {
                    Some(args) => self.serialize_call_arguments(args),
                    None => {},
                }
            },
            ast::InlineExpression::Placeable { expression } => {
                self.writer.write_byte(OPEN_BRACE);
                self.serialize_expression(expression);
                self.writer.write_byte(CLOSE_BRACE);
            },
        }
    }

    fn serialize_select_expression(
        &mut self,
        selector: &ast::InlineExpression<Vec<u8>>,
        variants: &Vec<ast::Variant<Vec<u8>>>,
        Ghost(parent): Ghost<ast::Expression<Vec<u8>>>,
    )
        requires
            parent == (ast::Expression::SelectExpression { selector: *selector, variants: *variants }),
            expr_fits(
                model::Expression::Select {
                    selector: model::inline(*selector),
                    variants: model::variants(variants@),
                },
                old(self).writer.indent_level as int,
            ),
        ensures
            final(self).writer@ == ser_expr(
                old(self).writer@,
                model::Expression::Select {
                    selector: model::inline(*selector),
                    variants: model::variants(variants@),
                },
            ),
            final(self).writer.indent_level == old(self).writer.indent_level,
            final(self).options == old(self).options,
            final(self).state == old(self).state,
        decreases parent, 2nat,
    {
        let ghost vs = model::variants(variants@);
        proof {
            model::lemma_variants_index(variants@);
        }
        proof {
            assert(decreases_to!(parent => parent->SelectExpression_selector));
        }
        self.serialize_inline_expression(selector);
        self.writer.write_triple(SPACE, MINUS, GREATER);
        self.writer.newline();
        self.writer.indent();
        let ghost w1 = self.writer@;
        let ghost level = self.writer.indent_level;
        let mut i: usize = 0;
        assert(vs.subrange(0, 0) =~= Seq::<Variant>::empty());
        while i < variants.len()
            invariant
                i <= variants@.len(),
                parent == (ast::Expression::SelectExpression { selector: *selector, variants: *variants }),
                vs == model::variants(variants@),
                vs.len() == variants@.len(),
                forall|k: int| 0 <= k < vs.len() ==> #[trigger] vs[k] == model::variant(variants@[k]),
                forall|k: int| 0 <= k < vs.len() ==> pattern_fits(#[trigger] vs[k].value, level as int),
                self.writer.indent_level == level,
                level > 0,
                self.writer@ == ser_variants(w1, vs.subrange(0, i as int)),
                self.options == old(self).options,
                self.state == old(self).state,
            decreases variants@.len() - i,
        {
            assert(vs[i as int] == model::variant(variants@[i as int]));
            proof {
                assert(parent->SelectExpression_variants == *variants);
                assert(decreases_to!(parent => parent->SelectExpression_variants));
                assert(decreases_to!(parent->SelectExpression_variants => parent->SelectExpression_variants@));
                assert(decreases_to!(parent->SelectExpression_variants@ => parent->SelectExpression_variants@[i as int]));
            }
            self.serialize_variant(&variants[i]);
            self.writer.newline();
            assert(vs.subrange(0, i + 1).drop_last() =~= vs.subrange(0, i as int));
            i += 1;
        }
        assert(vs.subrange(0, vs.len() as int) =~= vs);
        self.writer.dedent();
    }

    fn serialize_variant(&mut self, variant: &ast::Variant<Vec<u8>>)
        requires
            pattern_fits(model::variant(*variant).value, old(self).writer.indent_level as int),
        ensures
            final(self).writer@ == ser_variant(old(self).writer@, model::variant(*variant)),
            final(self).writer.indent_level == old(self).writer.indent_level,
            final(self).options == old(self).options,
            final(self).state == old(self).state,
        decreases variant, 0nat,
    {
        if variant.default {
            self.writer.write_byte(ASTERISK);
        }
        self.writer.write_byte(OPEN_BRACKET);
        self.serialize_variant_key(&variant.key);
        self.writer.write_byte(CLOSE_BRACKET);
        self.serialize_pattern(&variant.value);
    }

    fn serialize_variant_key(&mut self, key: &ast::VariantKey<Vec<u8>>)
        ensures
            final(self).writer@ == write(old(self).writer@, key_text(model::variant_key(*key))),
            final(self).writer.indent_level == old(self).writer.indent_level,
            final(self).options == old(self).options,
            final(self).state == old(self).state,
    {
        match key {
            ast::VariantKey::NumberLiteral { value } => self.writer.write_literal(value.as_slice()),
            ast::VariantKey::Identifier { name } => self.writer.write_literal(name.as_slice()),
        }
    }

    fn serialize_call_arguments(&mut self, args: &ast::CallArguments<Vec<u8>>)
        requires
            args_fits(model::call_args(*args), old(self).writer.indent_level as int),
        ensures
            final(self).writer@ == ser_args(old(self).writer@, model::call_args(*args)),
            final(self).writer.indent_level == old(self).writer.indent_level,
            final(self).options == old(self).options,
            final(self).state == old(self).state,
        decreases args, 1nat,
    {
        let ghost ps = model::inlines(args.positional@);
        let ghost ns = model::nameds(args.named@);
        proof {
            model::lemma_inlines_index(args.positional@);
            model::lemma_nameds_index(args.named@);
        }
        let mut argument_written = false;
        self.writer.write_byte(OPEN_PAREN);
        let ghost level = self.writer.indent_level as int;
        let ghost w1 = self.writer@;
        let mut i: usize = 0;
        assert(ps.subrange(0, 0) =~= Seq::<InlineExpression>::empty());
        assert(model::call_args(*args).positional == ps);
        assert(model::call_args(*args).named == ns);
        while i < args.positional.len()
            invariant
                i <= args.positional@.len(),
                ps == model::inlines(args.positional@),
                ps.len() == args.positional@.len(),
                forall|k: int| 0 <= k < ps.len() ==> #[trigger] ps[k] == model::inline(args.positional@[k]),
                forall|k: int| 0 <= k < ps.len() ==> inline_fits(#[trigger] ps[k], level),
                level == old(self).writer.indent_level,
                self.writer.indent_level == old(self).writer.indent_level,
                argument_written == (i > 0),
                self.writer@ == ser_positionals(w1, ps.subrange(0, i as int)),
                self.options == old(self).options,
                self.state == old(self).state,
            decreases args.positional@.len() - i,
        {
            if argument_written {
                self.writer.write_pair(COMMA, SPACE);
            }
            assert(ps[i as int] == model::inline(args.positional@[i as int]));
            self.serialize_inline_expression(&args.positional[i]);
            argument_written = true;
            assert(ps.subrange(0, i + 1).drop_last() =~= ps.subrange(0, i as int));
            i += 1;
        }
        assert(ps.subrange(0, ps.len() as int) =~= ps);
        let ghost w2 = self.writer@;
        let mut j: usize = 0;
        assert(ns.subrange(0, 0) =~= Seq::<NamedArgument>::empty());
        while j < args.named.len()
            invariant
                j <= args.named@.len(),
                ns == model::nameds(args.named@),
                ns.len() == args.named@.len(),
                forall|k: int| 0 <= k < ns.len() ==> #[trigger] ns[k] == model::named(args.named@[k]),
                forall|k: int| 0 <= k < ns.len() ==> inline_fits(#[trigger] ns[k].value, level),
                level == old(self).writer.indent_level,
                self.writer.indent_level == old(self).writer.indent_level,
                argument_written == (ps.len() > 0 || j > 0),
                self.writer@ == ser_nameds(w2, ns.subrange(0, j as int), ps.len() > 0),
                self.options == old(self).options,
                self.state == old(self).state,
            decreases args.named@.len() - j,
        {
            if argument_written {
                self.writer.write_pair(COMMA, SPACE);
            }
            self.writer.write_literal(args.named[j].name.name.as_slice());
            self.writer.write_pair(COLON, SPACE);
            assert(ns[j as int] == model::named(args.named@[j as int]));
            assert(ns[j as int].value == model::inline(args.named@[j as int].value));
            self.serialize_inline_expression(&args.named[j].value);
            argument_written = true;
            assert(ns.subrange(0, j + 1).drop_last() =~= ns.subrange(0, j as int));
            j += 1;
        }
        assert(ns.subrange(0, ns.len() as int) =~= ns);
        self.writer.write_byte(CLOSE_PAREN);
    }

}


/// Writes `resource` as FTL text, leaving its junk out.
pub fn serialize(resource: &ast::Resource<Vec<u8>>) -> (r: String)
    requires
        entries_fit(model::entries(resource.body@), 0),
    ensures
        model::text_from(
            r,
            ser_entries(
                Writer { text: Seq::empty(), level: 0 },
                false,
                model::entries(resource.body@),
                false,
            ).0.text,
        ),
{
    serialize_with_options(resource, Options::default())
}

/// Writes `resource` as FTL text.
pub fn serialize_with_options(resource: &ast::Resource<Vec<u8>>, options: Options) -> (r: String)
    requires
        entries_fit(model::entries(resource.body@), 0),
    ensures
        model::text_from(
            r,
            ser_entries(
                Writer { text: Seq::empty(), level: 0 },
                false,
                model::entries(resource.body@),
                options.with_junk,
            ).0.text,
        ),
{
    let mut ser = Serializer::new(options);
    let _ = ser.serialize_resource(resource);
    ser.into_serialized_text()
}

/// The error type of `std::fmt`, which writing to memory never returns.
#[verifier::external_type_specification]
#[verifier::external_body]
pub struct ExFmtError(std::fmt::Error);

} // verus!
