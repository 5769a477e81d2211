//! The document tree: blocks that hold inlines, inlines that nest inlines or,
//! for a footnote, blocks again.
use vstd::prelude::*;
use crate::chunk::fragment::{text_pairs, texts};

verus! {

/// Identifier, classes and key-value pairs attached to an element.
#[derive(Debug, PartialEq, Eq)]
pub struct Attr {
    pub identifier: String,
    pub classes: Vec<String>,
    pub attributes: Vec<(String, String)>,
}

/// Where a link or an image points, and its title.
#[derive(Debug, PartialEq, Eq)]
pub struct Target {
    pub url: String,
    pub title: String,
}

/// Name of the output format that raw content is written in.
#[derive(Debug, PartialEq, Eq)]
pub struct Format(pub String);

/// The kind of quotation marks.
#[derive(Debug, Clone, Copy, PartialEq, Eq)]
pub enum QuoteType {
    SingleQuote,
    DoubleQuote,
}

/// Whether a formula is set apart or in the line.
#[derive(Debug, Clone, Copy, PartialEq, Eq)]
pub enum MathType {
    DisplayMath,
    InlineMath,
}

/// The two kinds of leaf text.
#[derive(Debug, PartialEq, Eq)]
pub enum TextKind {
    Str,
    RawInline(Format),
}

/// Leaves that carry no translatable text.
#[derive(Debug, PartialEq, Eq)]
pub enum InertInline {
    Space,
    SoftBreak,
    LineBreak,
    Code(Attr, String),
    Math(MathType, String),
}

/// Inlines that hold a nested sequence of inlines.
#[derive(Debug, PartialEq, Eq)]
pub enum ContainerKind {
    Span(Attr),
    Link(Attr, Target),
    Image(Attr, Target),
    Emph,
    Strong,
    Underline,
    Strikeout,
    Superscript,
    Subscript,
    SmallCaps,
    Quoted(QuoteType),
}

/// What stands inside a block.
#[derive(Debug, PartialEq, Eq)]
pub enum Inline {
    /// Leaf text: the string is what gets translated.
    Text(TextKind, String),
    /// A leaf without translatable text.
    Inert(InertInline),
    /// Formatting around nested inlines.
    Container(ContainerKind, Vec<Inline>),
    /// A footnote: an independent run of blocks.
    Note(Vec<Block>),
    /// Citation-bearing content, which is not supported.
    Cite,
}

/// Blocks whose inlines form one chunk.
#[derive(Debug, PartialEq, Eq)]
pub enum TextBlockKind {
    Plain,
    Para,
    Header(i32, Attr),
}

/// Blocks that only group other blocks.
#[derive(Debug, PartialEq, Eq)]
pub enum NestKind {
    BlockQuote,
    Div(Attr),
}

/// Blocks that are never touched.
#[derive(Debug, PartialEq, Eq)]
pub enum InertBlock {
    CodeBlock(Attr, String),
    RawBlock(Format, String),
    HorizontalRule,
    Null,
}

/// Blocks that are not supported.
#[derive(Debug, Clone, Copy, PartialEq, Eq)]
pub enum UnsupportedBlock {
    LineBlock,
    OrderedList,
    BulletList,
    DefinitionList,
    Table,
    Figure,
}

/// What a document is made of.
#[derive(Debug, PartialEq, Eq)]
pub enum Block {
    /// A translatable block: its inlines yield exactly one chunk.
    Text(TextBlockKind, Vec<Inline>),
    /// A structural container: its blocks are walked, it has no chunk.
    Nest(NestKind, Vec<Block>),
    /// An inert block.
    Inert(InertBlock),
    /// An unsupported block.
    Unsupported(UnsupportedBlock),
}

/// Mathematical model of an [`Attr`].
pub struct AttrView {
    pub identifier: Seq<char>,
    pub classes: Seq<Seq<char>>,
    pub attributes: Seq<(Seq<char>, Seq<char>)>,
}

/// Mathematical model of a [`Target`].
pub struct TargetView {
    pub url: Seq<char>,
    pub title: Seq<char>,
}

/// Mathematical model of a [`TextKind`].
pub enum TextKindView {
    Str,
    RawInline(Seq<char>),
}

/// Mathematical model of an [`InertInline`].
pub enum InertInlineView {
    Space,
    SoftBreak,
    LineBreak,
    Code(AttrView, Seq<char>),
    Math(MathType, Seq<char>),
}

/// Mathematical model of a [`ContainerKind`].
pub enum ContainerKindView {
    Span(AttrView),
    Link(AttrView, TargetView),
    Image(AttrView, TargetView),
    Emph,
    Strong,
    Underline,
    Strikeout,
    Superscript,
    Subscript,
    SmallCaps,
    Quoted(QuoteType),
}

/// Mathematical model of a [`TextBlockKind`].
pub enum TextBlockKindView {
    Plain,
    Para,
    Header(i32, AttrView),
}

/// Mathematical model of a [`NestKind`].
pub enum NestKindView {
    BlockQuote,
    Div(AttrView),
}

/// Mathematical model of an [`InertBlock`].
pub enum InertBlockView {
    CodeBlock(AttrView, Seq<char>),
    RawBlock(Seq<char>, Seq<char>),
    HorizontalRule,
    Null,
}

/// Mathematical model of an [`Inline`]: texts are character sequences and
/// children are sequences of models.
pub enum InlineView {
    Text(TextKindView, Seq<char>),
    Inert(InertInlineView),
    Container(ContainerKindView, Seq<InlineView>),
    Note(Seq<BlockView>),
    Cite,
}

/// Mathematical model of a [`Block`].
pub enum BlockView {
    Text(TextBlockKindView, Seq<InlineView>),
    Nest(NestKindView, Seq<BlockView>),
    Inert(InertBlockView),
    Unsupported(UnsupportedBlock),
}

impl View for Attr {
    type V = AttrView;

    open spec fn view(&self) -> AttrView {
        AttrView {
            identifier: self.identifier@,
            classes: texts(self.classes@),
            attributes: text_pairs(self.attributes@),
        }
    }
}

impl View for Target {
    type V = TargetView;

    open spec fn view(&self) -> TargetView {
        TargetView { url: self.url@, title: self.title@ }
    }
}

impl View for Format {
    type V = Seq<char>;

    open spec fn view(&self) -> Seq<char> {
        self.0@
    }
}

impl View for TextKind {
    type V = TextKindView;

    open spec fn view(&self) -> TextKindView {
        match self {
            TextKind::Str => TextKindView::Str,
            TextKind::RawInline(format) => TextKindView::RawInline(format@),
        }
    }
}

impl View for InertInline {
    type V = InertInlineView;

    open spec fn view(&self) -> InertInlineView {
        match self {
            InertInline::Space => InertInlineView::Space,
            InertInline::SoftBreak => InertInlineView::SoftBreak,
            InertInline::LineBreak => InertInlineView::LineBreak,
            InertInline::Code(attr, text) => InertInlineView::Code(attr@, text@),
            InertInline::Math(kind, text) => InertInlineView::Math(*kind, text@),
        }
    }
}

impl View for ContainerKind {
    type V = ContainerKindView;

    open spec fn view(&self) -> ContainerKindView {
        match self {
            ContainerKind::Span(attr) => ContainerKindView::Span(attr@),
            ContainerKind::Link(attr, target) => ContainerKindView::Link(attr@, target@),
            ContainerKind::Image(attr, target) => ContainerKindView::Image(attr@, target@),
            ContainerKind::Emph => ContainerKindView::Emph,
            ContainerKind::Strong => ContainerKindView::Strong,
            ContainerKind::Underline => ContainerKindView::Underline,
            ContainerKind::Strikeout => ContainerKindView::Strikeout,
            ContainerKind::Superscript => ContainerKindView::Superscript,
            ContainerKind::Subscript => ContainerKindView::Subscript,
            ContainerKind::SmallCaps => ContainerKindView::SmallCaps,
            ContainerKind::Quoted(quote) => ContainerKindView::Quoted(*quote),
        }
    }
}

impl View for TextBlockKind {
    type V = TextBlockKindView;

    open spec fn view(&self) -> TextBlockKindView {
        match self {
            TextBlockKind::Plain => TextBlockKindView::Plain,
            TextBlockKind::Para => TextBlockKindView::Para,
            TextBlockKind::Header(level, attr) => TextBlockKindView::Header(*level, attr@),
        }
    }
}

impl View for NestKind {
    type V = NestKindView;

    open spec fn view(&self) -> NestKindView {
        match self {
            NestKind::BlockQuote => NestKindView::BlockQuote,
            NestKind::Div(attr) => NestKindView::Div(attr@),
        }
    }
}

impl View for InertBlock {
    type V = InertBlockView;

    open spec fn view(&self) -> InertBlockView {
        match self {
            InertBlock::CodeBlock(attr, text) => InertBlockView::CodeBlock(attr@, text@),
            InertBlock::RawBlock(format, text) => InertBlockView::RawBlock(format@, text@),
            InertBlock::HorizontalRule => InertBlockView::HorizontalRule,
            InertBlock::Null => InertBlockView::Null,
        }
    }
}

/// The model of an inline.
pub open spec fn inline_view(inline: Inline) -> InlineView
    decreases inline,
{
    match inline {
        Inline::Text(kind, text) => InlineView::Text(kind@, text@),
        Inline::Inert(inert) => InlineView::Inert(inert@),
        Inline::Container(kind, children) => InlineView::Container(kind@, inlines_view(children@)),
        Inline::Note(blocks) => InlineView::Note(blocks_view(blocks@)),
        Inline::Cite => InlineView::Cite,
    }
}

/// The models of a run of inlines.
pub open spec fn inlines_view(inlines: Seq<Inline>) -> Seq<InlineView>
    decreases inlines,
{
    Seq::new(
        inlines.len(),
        |i: int|
            if 0 <= i < inlines.len() {
                inline_view(inlines[i])
            } else {
                InlineView::Cite
            },
    )
}

/// The model of a block.
pub open spec fn block_view(block: Block) -> BlockView
    decreases block,
{
    match block {
        Block::Text(kind, inlines) => BlockView::Text(kind@, inlines_view(inlines@)),
        Block::Nest(kind, blocks) => BlockView::Nest(kind@, blocks_view(blocks@)),
        Block::Inert(inert) => BlockView::Inert(inert@),
        Block::Unsupported(kind) => BlockView::Unsupported(kind),
    }
}

/// The models of a run of blocks.
pub open spec fn blocks_view(blocks: Seq<Block>) -> Seq<BlockView>
    decreases blocks,
{
    Seq::new(
        blocks.len(),
        |i: int|
            if 0 <= i < blocks.len() {
                block_view(blocks[i])
            } else {
                BlockView::Inert(InertBlockView::Null)
            },
    )
}

impl View for Inline {
    type V = InlineView;

    open spec fn view(&self) -> InlineView {
        inline_view(*self)
    }
}

impl View for Block {
    type V = BlockView;

    open spec fn view(&self) -> BlockView {
        block_view(*self)
    }
}

/// Copies a list of texts.
fn texts_cloned(source: &Vec<String>) -> (copy: Vec<String>)
    ensures
        texts(copy@) == texts(source@),
{
    let mut copy: Vec<String> = Vec::new();
    let mut i: usize = 0;
    assert(texts(copy@) =~= texts(source@).take(0));
    while i < source.len()
        invariant
            i <= source.len(),
            texts(copy@) == texts(source@).take(i as int),
        decreases source.len() - i,
    {
        let ghost before = texts(copy@);
        copy.push(source[i].clone());
        assert(texts(copy@) =~= before.push(source@[i as int]@));
        assert(texts(source@).take(i + 1) =~= before.push(source@[i as int]@));
        i = i + 1;
    }
    assert(texts(source@).take(source@.len() as int) =~= texts(source@));
    copy
}

/// Copies a list of pairs of texts.
fn pairs_cloned(source: &Vec<(String, String)>) -> (copy: Vec<(String, String)>)
    ensures
        text_pairs(copy@) == text_pairs(source@),
{
    let mut copy: Vec<(String, String)> = Vec::new();
    let mut i: usize = 0;
    assert(text_pairs(copy@) =~= text_pairs(source@).take(0));
    while i < source.len()
        invariant
            i <= source.len(),
            text_pairs(copy@) == text_pairs(source@).take(i as int),
        decreases source.len() - i,
    {
        let ghost before = text_pairs(copy@);
        let ghost pair = (source@[i as int].0@, source@[i as int].1@);
        copy.push((source[i].0.clone(), source[i].1.clone()));
        assert(text_pairs(copy@) =~= before.push(pair));
        assert(text_pairs(source@).take(i + 1) =~= before.push(pair));
        i = i + 1;
    }
    assert(text_pairs(source@).take(source@.len() as int) =~= text_pairs(source@));
    copy
}

impl Clone for Attr {
    fn clone(&self) -> (copy: Self)
        ensures
            copy@ == self@,
    {
        Attr {
            identifier: self.identifier.clone(),
            classes: texts_cloned(&self.classes),
            attributes: pairs_cloned(&self.attributes),
        }
    }
}

impl Clone for Target {
    fn clone(&self) -> (copy: Self)
        ensures
            copy@ == self@,
    {
        Target { url: self.url.clone(), title: self.title.clone() }
    }
}

impl Clone for Format {
    fn clone(&self) -> (copy: Self)
        ensures
            copy@ == self@,
    {
        Format(self.0.clone())
    }
}

impl Clone for TextKind {
    fn clone(&self) -> (copy: Self)
        ensures
            copy@ == self@,
    {
        match self {
            TextKind::Str => TextKind::Str,
            TextKind::RawInline(format) => TextKind::RawInline(format.clone()),
        }
    }
}

impl Clone for InertInline {
    fn clone(&self) -> (copy: Self)
        ensures
            copy@ == self@,
    {
        match self {
            InertInline::Space => InertInline::Space,
            InertInline::SoftBreak => InertInline::SoftBreak,
            InertInline::LineBreak => InertInline::LineBreak,
            InertInline::Code(attr, text) => InertInline::Code(attr.clone(), text.clone()),
            InertInline::Math(kind, text) => InertInline::Math(*kind, text.clone()),
        }
    }
}

impl Clone for ContainerKind {
    fn clone(&self) -> (copy: Self)
        ensures
            copy@ == self@,
    {
        match self {
            ContainerKind::Span(attr) => ContainerKind::Span(attr.clone()),
            ContainerKind::Link(attr, target) => ContainerKind::Link(attr.clone(), target.clone()),
            ContainerKind::Image(attr, target) => ContainerKind::Image(
                attr.clone(),
                target.clone(),
            ),
            ContainerKind::Emph => ContainerKind::Emph,
            ContainerKind::Strong => ContainerKind::Strong,
            ContainerKind::Underline => ContainerKind::Underline,
            ContainerKind::Strikeout => ContainerKind::Strikeout,
            ContainerKind::Superscript => ContainerKind::Superscript,
            ContainerKind::Subscript => ContainerKind::Subscript,
            ContainerKind::SmallCaps => ContainerKind::SmallCaps,
            ContainerKind::Quoted(quote) => ContainerKind::Quoted(*quote),
        }
    }
}

impl Clone for TextBlockKind {
    fn clone(&self) -> (copy: Self)
        ensures
            copy@ == self@,
    {
        match self {
            TextBlockKind::Plain => TextBlockKind::Plain,
            TextBlockKind::Para => TextBlockKind::Para,
            TextBlockKind::Header(level, attr) => TextBlockKind::Header(*level, attr.clone()),
        }
    }
}

impl Clone for NestKind {
    fn clone(&self) -> (copy: Self)
        ensures
            copy@ == self@,
    {
        match self {
            NestKind::BlockQuote => NestKind::BlockQuote,
            NestKind::Div(attr) => NestKind::Div(attr.clone()),
        }
    }
}

impl Clone for InertBlock {
    fn clone(&self) -> (copy: Self)
        ensures
            copy@ == self@,
    {
        match self {
            InertBlock::CodeBlock(attr, text) => InertBlock::CodeBlock(attr.clone(), text.clone()),
            InertBlock::RawBlock(format, text) => InertBlock::RawBlock(
                format.clone(),
                text.clone(),
            ),
            InertBlock::HorizontalRule => InertBlock::HorizontalRule,
            InertBlock::Null => InertBlock::Null,
        }
    }
}

/// Copies an inline with all that is below it.
fn inline_cloned(inline: &Inline) -> (copy: Inline)
    ensures
        copy@ == inline@,
    decreases inline, 0nat,
{
    match inline {
        Inline::Text(kind, text) => Inline::Text(kind.clone(), text.clone()),
        Inline::Inert(inert) => Inline::Inert(inert.clone()),
        Inline::Container(kind, children) => Inline::Container(
            kind.clone(),
            inlines_cloned(children),
        ),
        Inline::Note(blocks) => Inline::Note(blocks_cloned(blocks)),
        Inline::Cite => Inline::Cite,
    }
}

/// Copies a run of inlines.
fn inlines_cloned(inlines: &Vec<Inline>) -> (copy: Vec<Inline>)
    ensures
        inlines_view(copy@) == inlines_view(inlines@),
    decreases inlines, 1nat,
{
    let mut copy: Vec<Inline> = Vec::new();
    let mut i: usize = 0;
    while i < inlines.len()
        invariant
            i <= inlines.len(),
            copy@.len() == i,
            forall|j: int| 0 <= j < i ==> inline_view(#[trigger] copy@[j]) == inline_view(inlines@[j]),
        decreases inlines.len() - i,
    {
        copy.push(inline_cloned(&inlines[i]));
        i = i + 1;
    }
    assert(inlines_view(copy@) =~= inlines_view(inlines@));
    copy
}

/// Copies a block with all that is below it.
fn block_cloned(block: &Block) -> (copy: Block)
    ensures
        copy@ == block@,
    decreases block, 0nat,
{
    match block {
        Block::Text(kind, inlines) => Block::Text(kind.clone(), inlines_cloned(inlines)),
        Block::Nest(kind, blocks) => Block::Nest(kind.clone(), blocks_cloned(blocks)),
        Block::Inert(inert) => Block::Inert(inert.clone()),
        Block::Unsupported(kind) => Block::Unsupported(*kind),
    }
}

/// Copies a run of blocks.
pub fn blocks_cloned(blocks: &Vec<Block>) -> (copy: Vec<Block>)
    ensures
        blocks_view(copy@) == blocks_view(blocks@),
    decreases blocks, 1nat,
{
    let mut copy: Vec<Block> = Vec::new();
    let mut i: usize = 0;
    while i < blocks.len()
        invariant
            i <= blocks.len(),
            copy@.len() == i,
            forall|j: int| 0 <= j < i ==> block_view(#[trigger] copy@[j]) == block_view(blocks@[j]),
        decreases blocks.len() - i,
    {
        copy.push(block_cloned(&blocks[i]));
        i = i + 1;
    }
    assert(blocks_view(copy@) =~= blocks_view(blocks@));
    copy
}

impl Clone for Inline {
    fn clone(&self) -> (copy: Self)
        ensures
            copy@ == self@,
    {
        inline_cloned(self)
    }
}

impl Clone for Block {
    fn clone(&self) -> (copy: Self)
        ensures
            copy@ == self@,
    {
        block_cloned(self)
    }
}

} // verus!
