//! What the walks over a document tree compute, stated over the models of
//! the tree and of the queues.
use vstd::prelude::*;
use crate::chunk::{ChunkError, TaskType, TasksView};
use crate::chunk::fragment::{fragments_of, joined, separators};
use crate::chunk::tree::{BlockView, InertInlineView, InlineView, TextKindView};

verus! {

/// No unsupported element occurs in `inline`.
pub open spec fn inline_supported(inline: InlineView) -> bool
    decreases inline, 0nat,
{
    match inline {
        InlineView::Text(_, _) => true,
        InlineView::Inert(_) => true,
        InlineView::Container(_, children) => inlines_supported_upto(children, children.len()),
        InlineView::Note(blocks) => blocks_supported_upto(blocks, blocks.len()),
        InlineView::Cite => false,
    }
}

/// No unsupported element occurs in the first `n` of `inlines`.
pub open spec fn inlines_supported_upto(inlines: Seq<InlineView>, n: nat) -> bool
    decreases inlines, n,
{
    if n == 0 || n > inlines.len() {
        true
    } else {
        inlines_supported_upto(inlines, (n - 1) as nat) && inline_supported(inlines[n - 1])
    }
}

/// No unsupported element occurs in `block`.
pub open spec fn block_supported(block: BlockView) -> bool
    decreases block, 0nat,
{
    match block {
        BlockView::Text(_, inlines) => inlines_supported_upto(inlines, inlines.len()),
        BlockView::Nest(_, blocks) => blocks_supported_upto(blocks, blocks.len()),
        BlockView::Inert(_) => true,
        BlockView::Unsupported(_) => false,
    }
}

/// No unsupported element occurs in the first `n` of `blocks`.
pub open spec fn blocks_supported_upto(blocks: Seq<BlockView>, n: nat) -> bool
    decreases blocks, n,
{
    if n == 0 || n > blocks.len() {
        true
    } else {
        blocks_supported_upto(blocks, (n - 1) as nat) && block_supported(blocks[n - 1])
    }
}

/// No unsupported element occurs anywhere in `blocks`.
pub open spec fn supported(blocks: Seq<BlockView>) -> bool {
    blocks_supported_upto(blocks, blocks.len())
}

/// A supported run of inlines has only supported prefixes.
pub proof fn lemma_inlines_supported_prefix(inlines: Seq<InlineView>, m: nat, n: nat)
    requires
        m <= n <= inlines.len(),
        inlines_supported_upto(inlines, n),
    ensures
        inlines_supported_upto(inlines, m),
    decreases n,
{
    if m < n {
        lemma_inlines_supported_prefix(inlines, m, (n - 1) as nat);
    }
}

/// One unsupported inline makes the run unsupported.
pub proof fn lemma_inlines_unsupported_at(inlines: Seq<InlineView>, i: int)
    requires
        0 <= i < inlines.len(),
        !inline_supported(inlines[i]),
    ensures
        !inlines_supported_upto(inlines, inlines.len()),
{
    if inlines_supported_upto(inlines, inlines.len()) {
        lemma_inlines_supported_prefix(inlines, (i + 1) as nat, inlines.len());
        assert(inlines_supported_upto(inlines, (i + 1) as nat));
    }
}

/// A supported run of blocks has only supported prefixes.
pub proof fn lemma_blocks_supported_prefix(blocks: Seq<BlockView>, m: nat, n: nat)
    requires
        m <= n <= blocks.len(),
        blocks_supported_upto(blocks, n),
    ensures
        blocks_supported_upto(blocks, m),
    decreases n,
{
    if m < n {
        lemma_blocks_supported_prefix(blocks, m, (n - 1) as nat);
    }
}

/// One unsupported block makes the run unsupported.
pub proof fn lemma_blocks_unsupported_at(blocks: Seq<BlockView>, i: int)
    requires
        0 <= i < blocks.len(),
        !block_supported(blocks[i]),
    ensures
        !blocks_supported_upto(blocks, blocks.len()),
{
    if blocks_supported_upto(blocks, blocks.len()) {
        lemma_blocks_supported_prefix(blocks, (i + 1) as nat, blocks.len());
        assert(blocks_supported_upto(blocks, (i + 1) as nat));
    }
}

/// The leaf texts of `inline`, left to right. A footnote has none of its
/// own: its blocks are a document apart.
pub open spec fn inline_leaves(inline: InlineView) -> Seq<Seq<char>>
    decreases inline, 0nat,
{
    match inline {
        InlineView::Text(_, text) => seq![text],
        InlineView::Container(_, children) => leaves_upto(children, children.len()),
        _ => Seq::empty(),
    }
}

/// The leaf texts of the first `n` of `inlines`.
pub open spec fn leaves_upto(inlines: Seq<InlineView>, n: nat) -> Seq<Seq<char>>
    decreases inlines, n,
{
    if n == 0 || n > inlines.len() {
        Seq::empty()
    } else {
        leaves_upto(inlines, (n - 1) as nat) + inline_leaves(inlines[n - 1])
    }
}

/// The leaf texts of `inlines`: the fragments of their block's chunk.
pub open spec fn leaves(inlines: Seq<InlineView>) -> Seq<Seq<char>> {
    leaves_upto(inlines, inlines.len())
}

/// The chunks of the footnotes in `inline`, in the order in which a
/// depth-first walk from the left meets them.
pub open spec fn inline_note_chunks(inline: InlineView) -> Seq<Seq<char>>
    decreases inline, 0nat,
{
    match inline {
        InlineView::Container(_, children) => note_chunks_upto(children, children.len()),
        InlineView::Note(blocks) => chunks_upto(blocks, blocks.len(), TaskType::Side).sides,
        _ => Seq::empty(),
    }
}

/// The chunks of the footnotes in the first `n` of `inlines`.
pub open spec fn note_chunks_upto(inlines: Seq<InlineView>, n: nat) -> Seq<Seq<char>>
    decreases inlines, n,
{
    if n == 0 || n > inlines.len() {
        Seq::empty()
    } else {
        note_chunks_upto(inlines, (n - 1) as nat) + inline_note_chunks(inlines[n - 1])
    }
}

/// The chunks that `block` yields when it stands in the context
/// `task_type`: for a translatable block the chunks of its footnotes, then its
/// own chunk; for a container those of its blocks.
pub open spec fn block_chunks(block: BlockView, task_type: TaskType) -> TasksView
    decreases block, 0nat,
{
    match block {
        BlockView::Text(_, inlines) => TasksView {
            main: Seq::empty(),
            sides: note_chunks_upto(inlines, inlines.len()),
        }.added(joined(leaves(inlines)), task_type),
        BlockView::Nest(_, blocks) => chunks_upto(blocks, blocks.len(), task_type),
        _ => TasksView::empty(),
    }
}

/// The chunks that the first `n` of `blocks` yield in the context
/// `task_type`.
pub open spec fn chunks_upto(blocks: Seq<BlockView>, n: nat, task_type: TaskType) -> TasksView
    decreases blocks, n,
{
    if n == 0 || n > blocks.len() {
        TasksView::empty()
    } else {
        chunks_upto(blocks, (n - 1) as nat, task_type).concat(
            block_chunks(blocks[n - 1], task_type),
        )
    }
}

/// Blocks of a footnote body yield nothing for the main queue.
pub proof fn lemma_side_chunks(blocks: Seq<BlockView>, n: nat)
    ensures
        chunks_upto(blocks, n, TaskType::Side).main == Seq::<Seq<char>>::empty(),
    decreases blocks, n,
{
    if n == 0 || n > blocks.len() {
    } else {
        lemma_side_chunks(blocks, (n - 1) as nat);
        match blocks[n - 1] {
            BlockView::Nest(_, inner) => {
                lemma_side_chunks(inner, inner.len());
            },
            _ => {},
        }
        assert(block_chunks(blocks[n - 1], TaskType::Side).main =~= Seq::<Seq<char>>::empty());
        assert(chunks_upto(blocks, n, TaskType::Side).main =~= Seq::<Seq<char>>::empty());
    }
}

/// The two queues extracted from a document.
pub open spec fn extracted(blocks: Seq<BlockView>) -> TasksView {
    chunks_upto(blocks, blocks.len(), TaskType::Main)
}

/// `inline` is plain text: the kind of leaf that merges with its like.
pub open spec fn is_plain(inline: InlineView) -> bool {
    inline matches InlineView::Text(TextKindView::Str, _)
}

/// `done` followed by `inline`, the two run together where `done` ends in
/// plain text and `inline` is plain text.
pub open spec fn merged(done: Seq<InlineView>, inline: InlineView) -> Seq<InlineView> {
    if done.len() > 0 && is_plain(done.last()) && is_plain(inline) {
        done.drop_last().push(
            InlineView::Text(TextKindView::Str, done.last()->Text_1 + inline->Text_1),
        )
    } else {
        done.push(inline)
    }
}

/// `inline` with every layout space below it turned into a one-character
/// plain text, and every run of plain texts below it merged into one.
pub open spec fn inline_normalized(inline: InlineView) -> InlineView
    decreases inline, 0nat,
{
    match inline {
        InlineView::Inert(InertInlineView::Space) => InlineView::Text(TextKindView::Str, seq![' ']),
        InlineView::Container(kind, children) => InlineView::Container(
            kind,
            inlines_normalized_upto(children, children.len()),
        ),
        InlineView::Note(blocks) => InlineView::Note(blocks_normalized(blocks)),
        _ => inline,
    }
}

/// The first `n` of `inlines`, each normalized, neighbouring plain texts
/// merged.
pub open spec fn inlines_normalized_upto(inlines: Seq<InlineView>, n: nat) -> Seq<InlineView>
    decreases inlines, n,
{
    if n == 0 || n > inlines.len() {
        Seq::empty()
    } else {
        merged(inlines_normalized_upto(inlines, (n - 1) as nat), inline_normalized(inlines[n - 1]))
    }
}

/// `inlines` normalized.
pub open spec fn inlines_normalized(inlines: Seq<InlineView>) -> Seq<InlineView> {
    inlines_normalized_upto(inlines, inlines.len())
}

/// `block` with the inlines below it normalized.
pub open spec fn block_normalized(block: BlockView) -> BlockView
    decreases block,
{
    match block {
        BlockView::Text(kind, inlines) => BlockView::Text(
            kind,
            inlines_normalized_upto(inlines, inlines.len()),
        ),
        BlockView::Nest(kind, blocks) => BlockView::Nest(kind, blocks_normalized(blocks)),
        _ => block,
    }
}

/// Each of `blocks` normalized.
pub open spec fn blocks_normalized(blocks: Seq<BlockView>) -> Seq<BlockView>
    decreases blocks,
{
    Seq::new(blocks.len(), |i: int| if 0 <= i < blocks.len() {
        block_normalized(blocks[i])
    } else {
        blocks[i]
    })
}

/// `chunk` holds the fragments for a block of `leaf_count` text leaves:
/// one fragment for each leaf, or nothing at all for a block without leaves.
pub open spec fn fits(chunk: Seq<char>, leaf_count: nat) -> bool {
    separators(chunk) + 1 == leaf_count || (leaf_count == 0 && chunk.len() == 0)
}

/// `inline` with its text leaves replaced, left to right, by
/// `fragments[at]`, `fragments[at + 1]` and so on. Footnotes stay as they
/// are.
pub open spec fn inline_filled(inline: InlineView, fragments: Seq<Seq<char>>, at: int) -> InlineView
    decreases inline, 0nat,
{
    match inline {
        InlineView::Text(kind, _) => InlineView::Text(kind, fragments[at]),
        InlineView::Container(kind, children) => InlineView::Container(
            kind,
            filled_from(children, fragments, at),
        ),
        _ => inline,
    }
}

/// `inlines` with their text leaves replaced, left to right, by the
/// fragments from `fragments[at]` on: each inline starts where the leaves
/// before it end.
pub open spec fn filled_from(inlines: Seq<InlineView>, fragments: Seq<Seq<char>>, at: int) -> Seq<
    InlineView,
>
    decreases inlines, 1nat,
{
    Seq::new(
        inlines.len(),
        |i: int|
            if 0 <= i < inlines.len() {
                inline_filled(inlines[i], fragments, at + leaves_upto(inlines, i as nat).len())
            } else {
                inlines[i]
            },
    )
}

/// `inlines` with their text leaves replaced by `fragments`, in order.
pub open spec fn filled(inlines: Seq<InlineView>, fragments: Seq<Seq<char>>) -> Seq<InlineView> {
    filled_from(inlines, fragments, 0)
}

/// A longer prefix has at least as many leaves.
pub proof fn lemma_leaves_grow(inlines: Seq<InlineView>, m: nat, n: nat)
    requires
        m <= n <= inlines.len(),
    ensures
        leaves_upto(inlines, m).len() <= leaves_upto(inlines, n).len(),
    decreases n,
{
    if m < n {
        lemma_leaves_grow(inlines, m, (n - 1) as nat);
    }
}

/// Reinserts into the footnotes below `inline`, taking chunks off the
/// front of the side queue. Gives the new inline and what is left of the
/// queues, or the first error met.
pub open spec fn inline_notes_reinserted(inline: InlineView, tasks: TasksView) -> Result<
    (InlineView, TasksView),
    ChunkError,
>
    decreases inline, 0nat,
{
    match inline {
        InlineView::Container(kind, children) => match notes_reinserted_upto(
            children,
            children.len(),
            tasks,
        ) {
            Ok((children, tasks)) => Ok((InlineView::Container(kind, children), tasks)),
            Err(e) => Err(e),
        },
        InlineView::Note(blocks) => match reinserted_upto(
            blocks,
            blocks.len(),
            TaskType::Side,
            tasks,
        ) {
            Ok((blocks, tasks)) => Ok((InlineView::Note(blocks), tasks)),
            Err(e) => Err(e),
        },
        InlineView::Cite => Err(ChunkError::Unsupported),
        _ => Ok((inline, tasks)),
    }
}

/// Reinserts into the footnotes below the first `n` of `inlines`, left to
/// right.
pub open spec fn notes_reinserted_upto(inlines: Seq<InlineView>, n: nat, tasks: TasksView) -> Result<
    (Seq<InlineView>, TasksView),
    ChunkError,
>
    decreases inlines, n,
{
    if n == 0 || n > inlines.len() {
        Ok((Seq::empty(), tasks))
    } else {
        match notes_reinserted_upto(inlines, (n - 1) as nat, tasks) {
            Ok((done, tasks)) => match inline_notes_reinserted(inlines[n - 1], tasks) {
                Ok((inline, tasks)) => Ok((done.push(inline), tasks)),
                Err(e) => Err(e),
            },
            Err(e) => Err(e),
        }
    }
}

/// Reinserts into `block`, which stands in the context `task_type`. A
/// translatable block first has its footnotes served, in the order in which
/// extraction met them, then takes the front chunk of its own queue and
/// hands one fragment to each of its text leaves.
pub open spec fn block_reinserted(block: BlockView, task_type: TaskType, tasks: TasksView) -> Result<
    (BlockView, TasksView),
    ChunkError,
>
    decreases block, 0nat,
{
    match block {
        BlockView::Text(kind, inlines) => match notes_reinserted_upto(
            inlines,
            inlines.len(),
            tasks,
        ) {
            Ok((inlines, tasks)) => {
                let queue = tasks.queue(task_type);
                if queue.len() == 0 {
                    Err(ChunkError::Exhausted)
                } else if !fits(queue[0], leaves(inlines).len()) {
                    Err(ChunkError::Mismatch)
                } else {
                    Ok(
                        (
                            BlockView::Text(kind, filled(inlines, fragments_of(queue[0]))),
                            tasks.collected(task_type),
                        ),
                    )
                }
            },
            Err(e) => Err(e),
        },
        BlockView::Nest(kind, blocks) => match reinserted_upto(
            blocks,
            blocks.len(),
            task_type,
            tasks,
        ) {
            Ok((blocks, tasks)) => Ok((BlockView::Nest(kind, blocks), tasks)),
            Err(e) => Err(e),
        },
        BlockView::Inert(_) => Ok((block, tasks)),
        BlockView::Unsupported(_) => Err(ChunkError::Unsupported),
    }
}

/// Reinserts into the first `n` of `blocks`, in order.
pub open spec fn reinserted_upto(
    blocks: Seq<BlockView>,
    n: nat,
    task_type: TaskType,
    tasks: TasksView,
) -> Result<(Seq<BlockView>, TasksView), ChunkError>
    decreases blocks, n,
{
    if n == 0 || n > blocks.len() {
        Ok((Seq::empty(), tasks))
    } else {
        match reinserted_upto(blocks, (n - 1) as nat, task_type, tasks) {
            Ok((done, tasks)) => match block_reinserted(blocks[n - 1], task_type, tasks) {
                Ok((block, tasks)) => Ok((done.push(block), tasks)),
                Err(e) => Err(e),
            },
            Err(e) => Err(e),
        }
    }
}

/// Reinserts the queues `tasks` into a document: the new document and the
/// chunks that nothing asked for, or the first error met.
pub open spec fn reinserted(blocks: Seq<BlockView>, tasks: TasksView) -> Result<
    (Seq<BlockView>, TasksView),
    ChunkError,
> {
    reinserted_upto(blocks, blocks.len(), TaskType::Main, tasks)
}

/// An error met in a prefix is the error of the whole run.
pub proof fn lemma_notes_reinserted_fails(inlines: Seq<InlineView>, m: nat, n: nat, tasks: TasksView)
    requires
        m <= n <= inlines.len(),
        notes_reinserted_upto(inlines, m, tasks) is Err,
    ensures
        notes_reinserted_upto(inlines, n, tasks) == notes_reinserted_upto(inlines, m, tasks),
    decreases n,
{
    if m < n {
        lemma_notes_reinserted_fails(inlines, m, (n - 1) as nat, tasks);
    }
}

/// An error met in a prefix is the error of the whole run.
pub proof fn lemma_reinserted_fails(
    blocks: Seq<BlockView>,
    m: nat,
    n: nat,
    task_type: TaskType,
    tasks: TasksView,
)
    requires
        m <= n <= blocks.len(),
        reinserted_upto(blocks, m, task_type, tasks) is Err,
    ensures
        reinserted_upto(blocks, n, task_type, tasks) == reinserted_upto(blocks, m, task_type, tasks),
    decreases n,
{
    if m < n {
        lemma_reinserted_fails(blocks, m, (n - 1) as nat, task_type, tasks);
    }
}

} // verus!
