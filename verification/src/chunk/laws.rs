//! What holds of extraction and reinsertion taken together.
use vstd::prelude::*;
use crate::chunk::{TaskType, TasksView};
use crate::chunk::fragment::{
    all_separator_free, fragments_of, joined, lemma_joined_separators, lemma_split_joined,
    separator_free,
};
use crate::chunk::markdown::{
    applied_upto, block_applied, block_mipcs, block_plain, blocks_plain, inlines_applied,
    lemma_nest_plain, mipcs_upto,
};
use crate::chunk::tree::{BlockView, InertInlineView, InlineView, TextKindView};
use crate::chunk::walk::{
    block_chunks, block_reinserted, block_supported, blocks_normalized, blocks_supported_upto,
    chunks_upto, extracted, filled, filled_from, fits, inline_filled, inline_leaves,
    inline_normalized, inline_note_chunks, inline_notes_reinserted, inline_supported,
    inlines_normalized_upto, inlines_supported_upto, is_plain, leaves, leaves_upto,
    lemma_leaves_grow, merged, note_chunks_upto, notes_reinserted_upto, reinserted,
    reinserted_upto, supported,
};

verus! {

/// No text leaf below `inline` holds the separator.
pub open spec fn inline_separator_free(inline: InlineView) -> bool
    decreases inline,
{
    match inline {
        InlineView::Text(_, text) => separator_free(text),
        InlineView::Container(_, children) => forall|i: int|
            0 <= i < children.len() ==> inline_separator_free(#[trigger] children[i]),
        InlineView::Note(blocks) => forall|i: int|
            0 <= i < blocks.len() ==> block_separator_free(#[trigger] blocks[i]),
        _ => true,
    }
}

/// No text leaf below `block` holds the separator.
pub open spec fn block_separator_free(block: BlockView) -> bool
    decreases block,
{
    match block {
        BlockView::Text(_, inlines) => forall|i: int|
            0 <= i < inlines.len() ==> inline_separator_free(#[trigger] inlines[i]),
        BlockView::Nest(_, blocks) => forall|i: int|
            0 <= i < blocks.len() ==> block_separator_free(#[trigger] blocks[i]),
        _ => true,
    }
}

/// No text leaf of the document holds the separator.
pub open spec fn separator_free_document(blocks: Seq<BlockView>) -> bool {
    forall|i: int| 0 <= i < blocks.len() ==> block_separator_free(#[trigger] blocks[i])
}

/// The leaves before a shorter prefix are the first leaves of a longer one.
proof fn lemma_leaves_prefix(inlines: Seq<InlineView>, m: nat, n: nat)
    requires
        m <= n <= inlines.len(),
    ensures
        leaves_upto(inlines, m) == leaves_upto(inlines, n).subrange(
            0,
            leaves_upto(inlines, m).len() as int,
        ),
    decreases n,
{
    if m < n {
        lemma_leaves_prefix(inlines, m, (n - 1) as nat);
        lemma_leaves_grow(inlines, m, (n - 1) as nat);
        assert(leaves_upto(inlines, m) =~= leaves_upto(inlines, n).subrange(
            0,
            leaves_upto(inlines, m).len() as int,
        ));
    } else {
        assert(leaves_upto(inlines, m) =~= leaves_upto(inlines, n).subrange(
            0,
            leaves_upto(inlines, m).len() as int,
        ));
    }
}

/// The leaves of separator-free inlines are separator-free fragments.
proof fn lemma_leaves_separator_free(inlines: Seq<InlineView>, n: nat)
    requires
        n <= inlines.len(),
        forall|i: int| 0 <= i < inlines.len() ==> inline_separator_free(#[trigger] inlines[i]),
    ensures
        all_separator_free(leaves_upto(inlines, n)),
    decreases inlines, n,
{
    if n > 0 {
        lemma_leaves_separator_free(inlines, (n - 1) as nat);
        let last = inlines[n - 1];
        assert(inline_separator_free(last));
        match last {
            InlineView::Container(_, children) => {
                lemma_leaves_separator_free(children, children.len());
            },
            _ => {},
        }
        assert(all_separator_free(inline_leaves(last)));
        let before = leaves_upto(inlines, (n - 1) as nat);
        let all = leaves_upto(inlines, n);
        assert forall|i: int| 0 <= i < all.len() implies separator_free(#[trigger] all[i]) by {
            if i < before.len() {
                assert(all[i] == before[i]);
            } else {
                assert(all[i] == inline_leaves(last)[i - before.len()]);
            }
        }
    }
}

/// Filling inlines with their own leaves changes nothing.
pub proof fn lemma_filled_same(inlines: Seq<InlineView>, fragments: Seq<Seq<char>>, at: int)
    requires
        0 <= at,
        at + leaves(inlines).len() <= fragments.len(),
        forall|k: int|
            0 <= k < leaves(inlines).len() ==> #[trigger] fragments[at + k] == leaves(inlines)[k],
    ensures
        filled_from(inlines, fragments, at) == inlines,
    decreases inlines,
{
    let all = leaves(inlines);
    assert forall|i: int| 0 <= i < inlines.len() implies inline_filled(
        inlines[i],
        fragments,
        at + leaves_upto(inlines, i as nat).len(),
    ) == inlines[i] by {
        let offset = leaves_upto(inlines, i as nat).len() as int;
        let own = inline_leaves(inlines[i]);
        let upto = leaves_upto(inlines, (i + 1) as nat);
        lemma_leaves_prefix(inlines, (i + 1) as nat, inlines.len());
        lemma_leaves_grow(inlines, (i + 1) as nat, inlines.len());
        assert(upto == leaves_upto(inlines, i as nat) + own);
        assert(upto == all.subrange(0, upto.len() as int));
        assert forall|k: int| 0 <= k < own.len() implies #[trigger] fragments[at + offset + k]
            == own[k] by {
            assert(upto[offset + k] == own[k]);
            assert(all.subrange(0, upto.len() as int)[offset + k] == all[offset + k]);
            assert(all[offset + k] == own[k]);
            assert(fragments[at + (offset + k)] == all[offset + k]);
        }
        match inlines[i] {
            InlineView::Text(_, text) => {
                assert(own[0] == text);
                assert(fragments[at + offset + 0] == own[0]);
            },
            InlineView::Container(_, children) => {
                lemma_filled_same(children, fragments, at + offset);
            },
            _ => {},
        }
    }
    assert(filled_from(inlines, fragments, at) =~= inlines);
}

/// Reinsertion serves the footnotes of separator-free, supported inlines
/// from their own chunks and leaves the inlines as they were.
proof fn lemma_notes_round_trip(
    inlines: Seq<InlineView>,
    n: nat,
    main: Seq<Seq<char>>,
    sides: Seq<Seq<char>>,
)
    requires
        n <= inlines.len(),
        inlines_supported_upto(inlines, n),
        forall|i: int| 0 <= i < inlines.len() ==> inline_separator_free(#[trigger] inlines[i]),
    ensures
        notes_reinserted_upto(
            inlines,
            n,
            TasksView { main, sides: note_chunks_upto(inlines, n) + sides },
        ) == Ok::<(Seq<InlineView>, TasksView), crate::chunk::ChunkError>(
            (inlines.take(n as int), TasksView { main, sides }),
        ),
    decreases inlines, n, 0nat,
{
    if n == 0 {
        assert(note_chunks_upto(inlines, n) + sides =~= sides);
        assert(inlines.take(0) =~= Seq::empty());
    } else {
        let last = inlines[n - 1];
        let own = inline_note_chunks(last);
        lemma_notes_round_trip(inlines, (n - 1) as nat, main, own + sides);
        assert(note_chunks_upto(inlines, n) + sides =~= note_chunks_upto(inlines, (n - 1) as nat)
            + (own + sides));
        assert(inline_separator_free(last));
        assert(inline_supported(last));
        let queues = TasksView { main, sides: own + sides };
        match last {
            InlineView::Container(_, children) => {
                lemma_notes_round_trip(children, children.len(), main, sides);
                assert(children.take(children.len() as int) =~= children);
            },
            InlineView::Note(blocks) => {
                lemma_blocks_round_trip(
                    blocks,
                    blocks.len(),
                    TaskType::Side,
                    TasksView { main, sides },
                );
                crate::chunk::walk::lemma_side_chunks(blocks, blocks.len());
                assert(chunks_upto(blocks, blocks.len(), TaskType::Side).concat(
                    TasksView { main, sides },
                ) =~= queues);
                assert(blocks.take(blocks.len() as int) =~= blocks);
            },
            _ => {
                assert(own + sides =~= sides);
            },
        }
        assert(inline_notes_reinserted(last, queues) == Ok::<
            (InlineView, TasksView),
            crate::chunk::ChunkError,
        >((last, TasksView { main, sides })));
        assert(inlines.take(n as int) =~= inlines.take(n - 1).push(last));
    }
}

/// Reinsertion hands separator-free, supported blocks their own chunks
/// back and leaves the blocks as they were.
proof fn lemma_blocks_round_trip(
    blocks: Seq<BlockView>,
    n: nat,
    task_type: TaskType,
    rest: TasksView,
)
    requires
        n <= blocks.len(),
        blocks_supported_upto(blocks, n),
        forall|i: int| 0 <= i < blocks.len() ==> block_separator_free(#[trigger] blocks[i]),
    ensures
        reinserted_upto(blocks, n, task_type, chunks_upto(blocks, n, task_type).concat(rest))
            == Ok::<(Seq<BlockView>, TasksView), crate::chunk::ChunkError>(
            (blocks.take(n as int), rest),
        ),
    decreases blocks, n, 1nat,
{
    if n == 0 {
        assert(chunks_upto(blocks, n, task_type).concat(rest) =~= rest);
        assert(blocks.take(0) =~= Seq::empty());
    } else {
        let last = blocks[n - 1];
        let own = block_chunks(last, task_type);
        lemma_blocks_round_trip(blocks, (n - 1) as nat, task_type, own.concat(rest));
        assert(chunks_upto(blocks, n, task_type).concat(rest) =~= chunks_upto(
            blocks,
            (n - 1) as nat,
            task_type,
        ).concat(own.concat(rest)));
        assert(block_separator_free(last));
        assert(block_supported(last));
        match last {
            BlockView::Text(_, inlines) => {
                let chunk = joined(leaves(inlines));
                let after = rest.added_front(chunk, task_type);
                lemma_notes_round_trip(inlines, inlines.len(), after.main, after.sides);
                assert(own.concat(rest) =~= TasksView {
                    main: after.main,
                    sides: note_chunks_upto(inlines, inlines.len()) + after.sides,
                });
                assert(inlines.take(inlines.len() as int) =~= inlines);
                assert(after.queue(task_type)[0] == chunk);
                assert(after.collected(task_type) =~= rest);
                lemma_leaves_separator_free(inlines, inlines.len());
                if leaves(inlines).len() > 0 {
                    lemma_joined_separators(leaves(inlines));
                    lemma_split_joined(leaves(inlines));
                }
                assert(fits(chunk, leaves(inlines).len()));
                lemma_filled_same(inlines, fragments_of(chunk), 0);
            },
            BlockView::Nest(_, inner) => {
                lemma_blocks_round_trip(inner, inner.len(), task_type, rest);
                assert(inner.take(inner.len() as int) =~= inner);
            },
            _ => {
                assert(own.concat(rest) =~= rest);
            },
        }
        assert(block_reinserted(last, task_type, own.concat(rest)) == Ok::<
            (BlockView, TasksView),
            crate::chunk::ChunkError,
        >((last, rest)));
        assert(blocks.take(n as int) =~= blocks.take(n - 1).push(last));
    }
}

/// Round trip: reinserting what extraction gave, each chunk as it is,
/// succeeds, uses up exactly the extracted chunks and gives the document
/// back unchanged. This holds of every supported document none of whose
/// text leaves holds the separator.
pub proof fn law_round_trip(blocks: Seq<BlockView>, rest: TasksView)
    requires
        supported(blocks),
        separator_free_document(blocks),
    ensures
        reinserted(blocks, extracted(blocks).concat(rest)) == Ok::<
            (Seq<BlockView>, TasksView),
            crate::chunk::ChunkError,
        >((blocks, rest)),
{
    lemma_blocks_round_trip(blocks, blocks.len(), TaskType::Main, rest);
    assert(blocks.take(blocks.len() as int) =~= blocks);
}

/// The leaves of a prefix depend on that prefix alone.
proof fn lemma_leaves_agree(a: Seq<InlineView>, b: Seq<InlineView>, n: nat)
    requires
        n <= a.len(),
        n <= b.len(),
        forall|i: int| 0 <= i < n ==> a[i] == b[i],
    ensures
        leaves_upto(a, n) == leaves_upto(b, n),
    decreases n,
{
    if n > 0 {
        lemma_leaves_agree(a, b, (n - 1) as nat);
    }
}

/// The footnote chunks of a prefix depend on that prefix alone.
proof fn lemma_note_chunks_agree(a: Seq<InlineView>, b: Seq<InlineView>, n: nat)
    requires
        n <= a.len(),
        n <= b.len(),
        forall|i: int| 0 <= i < n ==> a[i] == b[i],
    ensures
        note_chunks_upto(a, n) == note_chunks_upto(b, n),
    decreases n,
{
    if n > 0 {
        lemma_note_chunks_agree(a, b, (n - 1) as nat);
    }
}

/// The chunks of a prefix depend on that prefix alone.
proof fn lemma_chunks_agree(a: Seq<BlockView>, b: Seq<BlockView>, n: nat, task_type: TaskType)
    requires
        n <= a.len(),
        n <= b.len(),
        forall|i: int| 0 <= i < n ==> a[i] == b[i],
    ensures
        chunks_upto(a, n, task_type) == chunks_upto(b, n, task_type),
    decreases n,
{
    if n > 0 {
        lemma_chunks_agree(a, b, (n - 1) as nat, task_type);
    }
}

/// After filling, the leaves are the fragments that were handed out, and
/// the footnotes yield what they yielded before.
proof fn lemma_filled_leaves(
    inlines: Seq<InlineView>,
    fragments: Seq<Seq<char>>,
    at: int,
    n: nat,
)
    requires
        0 <= at,
        at + leaves(inlines).len() <= fragments.len(),
        n <= inlines.len(),
    ensures
        leaves_upto(filled_from(inlines, fragments, at), n) == fragments.subrange(
            at,
            at + leaves_upto(inlines, n).len(),
        ),
        note_chunks_upto(filled_from(inlines, fragments, at), n) == note_chunks_upto(inlines, n),
    decreases inlines, n,
{
    let result = filled_from(inlines, fragments, at);
    lemma_leaves_grow(inlines, n, inlines.len());
    if n == 0 {
        assert(leaves_upto(result, n) =~= fragments.subrange(at, at + 0));
    } else {
        lemma_filled_leaves(inlines, fragments, at, (n - 1) as nat);
        lemma_leaves_grow(inlines, (n - 1) as nat, n);
        let offset = leaves_upto(inlines, (n - 1) as nat).len() as int;
        let last = inlines[n - 1];
        assert(result[n - 1] == inline_filled(last, fragments, at + offset));
        assert(leaves_upto(inlines, n).len() == offset + inline_leaves(last).len());
        match last {
            InlineView::Text(_, _) => {
                assert(inline_leaves(result[n - 1]) =~= fragments.subrange(
                    at + offset,
                    at + offset + 1,
                ));
            },
            InlineView::Container(_, children) => {
                lemma_filled_leaves(children, fragments, at + offset, children.len());
                assert(filled_from(children, fragments, at + offset).len() == children.len());
            },
            _ => {},
        }
        assert(inline_leaves(result[n - 1]) =~= fragments.subrange(
            at + offset,
            at + offset + inline_leaves(last).len(),
        ));
        assert(inline_note_chunks(result[n - 1]) == inline_note_chunks(last));
        assert(leaves_upto(result, n) =~= fragments.subrange(
            at,
            at + leaves_upto(inlines, n).len(),
        ));
    }
}

/// What the footnote pass took off the side queue is what the footnotes
/// yield afterwards; the leaves around them are untouched.
proof fn lemma_notes_consumed(inlines: Seq<InlineView>, n: nat, tasks: TasksView)
    requires
        n <= inlines.len(),
        notes_reinserted_upto(inlines, n, tasks) is Ok,
    ensures
        ({
            let (done, left) = notes_reinserted_upto(inlines, n, tasks)->Ok_0;
            &&& done.len() == n
            &&& tasks.main == left.main
            &&& tasks.sides == note_chunks_upto(done, n) + left.sides
            &&& leaves_upto(done, n) == leaves_upto(inlines, n)
            &&& note_chunks_upto(done, n).len() == note_chunks_upto(inlines, n).len()
        }),
    decreases inlines, n, 0nat,
{
    let (done, left) = notes_reinserted_upto(inlines, n, tasks)->Ok_0;
    if n == 0 {
        assert(tasks.sides =~= note_chunks_upto(done, n) + left.sides);
    } else {
        lemma_notes_consumed(inlines, (n - 1) as nat, tasks);
        let (before, middle) = notes_reinserted_upto(inlines, (n - 1) as nat, tasks)->Ok_0;
        let last = inlines[n - 1];
        let (new, after) = inline_notes_reinserted(last, middle)->Ok_0;
        assert(done == before.push(new));
        assert(left == after);
        lemma_leaves_agree(done, before, (n - 1) as nat);
        lemma_note_chunks_agree(done, before, (n - 1) as nat);
        match last {
            InlineView::Container(_, children) => {
                lemma_notes_consumed(children, children.len(), middle);
            },
            InlineView::Note(blocks) => {
                lemma_blocks_consumed(blocks, blocks.len(), TaskType::Side, middle);
                let (inner, _) = reinserted_upto(blocks, blocks.len(), TaskType::Side, middle)->Ok_0;
                crate::chunk::walk::lemma_side_chunks(inner, inner.len());
                assert(middle.main =~= after.main);
            },
            _ => {},
        }
        assert(middle.main == after.main);
        assert(middle.sides =~= inline_note_chunks(new) + after.sides);
        assert(inline_leaves(new) == inline_leaves(last));
        assert(inline_note_chunks(new).len() == inline_note_chunks(last).len());
        assert(tasks.sides =~= note_chunks_upto(done, n) + left.sides);
    }
}

/// What reinsertion took off the queues is what the rewritten blocks
/// yield, chunk for chunk, and as many chunks as the blocks yielded before.
proof fn lemma_blocks_consumed(
    blocks: Seq<BlockView>,
    n: nat,
    task_type: TaskType,
    tasks: TasksView,
)
    requires
        n <= blocks.len(),
        reinserted_upto(blocks, n, task_type, tasks) is Ok,
    ensures
        ({
            let (done, left) = reinserted_upto(blocks, n, task_type, tasks)->Ok_0;
            &&& done.len() == n
            &&& tasks == chunks_upto(done, n, task_type).concat(left)
            &&& chunks_upto(done, n, task_type).main.len() == chunks_upto(
                blocks,
                n,
                task_type,
            ).main.len()
            &&& chunks_upto(done, n, task_type).sides.len() == chunks_upto(
                blocks,
                n,
                task_type,
            ).sides.len()
        }),
    decreases blocks, n, 1nat,
{
    let (done, left) = reinserted_upto(blocks, n, task_type, tasks)->Ok_0;
    if n == 0 {
        assert(tasks =~= chunks_upto(done, n, task_type).concat(left));
    } else {
        lemma_blocks_consumed(blocks, (n - 1) as nat, task_type, tasks);
        let (before, middle) = reinserted_upto(blocks, (n - 1) as nat, task_type, tasks)->Ok_0;
        let last = blocks[n - 1];
        let (new, after) = block_reinserted(last, task_type, middle)->Ok_0;
        assert(done == before.push(new));
        assert(left == after);
        lemma_chunks_agree(done, before, (n - 1) as nat, task_type);
        match last {
            BlockView::Text(_, inlines) => {
                lemma_notes_consumed(inlines, inlines.len(), middle);
                let (served, queues) = notes_reinserted_upto(inlines, inlines.len(), middle)->Ok_0;
                let chunk = queues.queue(task_type)[0];
                let given = fragments_of(chunk);
                crate::chunk::fragment::lemma_fragment_count(chunk);
                crate::chunk::fragment::lemma_joined_split(chunk);
                assert(leaves(served).len() <= given.len());
                lemma_filled_leaves(served, given, 0, served.len());
                let rewritten = filled(served, given);
                assert(rewritten.len() == served.len());
                if leaves(served).len() == given.len() {
                    assert(given.subrange(0, given.len() as int) =~= given);
                } else {
                    assert(leaves(rewritten) =~= Seq::<Seq<char>>::empty());
                    assert(chunk =~= Seq::<char>::empty());
                }
                assert(joined(leaves(rewritten)) == chunk);
                assert(queues =~= after.added_front(chunk, task_type));
                assert(block_chunks(new, task_type).concat(after) =~= middle);
                assert(block_chunks(new, task_type).main.len() == block_chunks(
                    last,
                    task_type,
                ).main.len());
                assert(block_chunks(new, task_type).sides.len() == block_chunks(
                    last,
                    task_type,
                ).sides.len());
            },
            BlockView::Nest(_, inner) => {
                lemma_blocks_consumed(inner, inner.len(), task_type, middle);
                let (rewritten, _) = reinserted_upto(inner, inner.len(), task_type, middle)->Ok_0;
                assert(block_chunks(new, task_type) == chunks_upto(
                    rewritten,
                    rewritten.len(),
                    task_type,
                ));
            },
            _ => {
                assert(new == last);
                assert(block_chunks(new, task_type).concat(after) =~= middle);
            },
        }
        let own = block_chunks(new, task_type);
        let was = block_chunks(last, task_type);
        assert(middle == own.concat(after));
        assert(own.main.len() == was.main.len());
        assert(own.sides.len() == was.sides.len());
        assert(chunks_upto(done, n, task_type) == chunks_upto(before, (n - 1) as nat, task_type).concat(
            own,
        ));
        assert(chunks_upto(blocks, n, task_type) == chunks_upto(
            blocks,
            (n - 1) as nat,
            task_type,
        ).concat(was));
        assert(tasks =~= chunks_upto(done, n, task_type).concat(left));
    }
}

/// Order correspondence: where reinsertion succeeds, the chunks it took
/// off each queue are, in order, the chunks that extraction yields from the
/// rewritten document, and they are as many as extraction yields from the
/// document before. So the block that gives the i-th chunk of a queue is the
/// block that takes the i-th chunk of that queue.
pub proof fn law_order_correspondence(blocks: Seq<BlockView>, tasks: TasksView)
    requires
        reinserted(blocks, tasks) is Ok,
    ensures
        ({
            let (done, left) = reinserted(blocks, tasks)->Ok_0;
            &&& done.len() == blocks.len()
            &&& tasks.main == extracted(done).main + left.main
            &&& tasks.sides == extracted(done).sides + left.sides
            &&& extracted(done).main.len() == extracted(blocks).main.len()
            &&& extracted(done).sides.len() == extracted(blocks).sides.len()
        }),
{
    lemma_blocks_consumed(blocks, blocks.len(), TaskType::Main, tasks);
}

/// `inline` is in normal form: no layout space stands at it or below
/// it, and below it no two plain texts are neighbours.
pub open spec fn inline_settled(inline: InlineView) -> bool
    decreases inline, 0nat,
{
    match inline {
        InlineView::Inert(InertInlineView::Space) => false,
        InlineView::Container(_, children) => inlines_settled(children),
        InlineView::Note(blocks) => forall|i: int|
            0 <= i < blocks.len() ==> block_settled(#[trigger] blocks[i]),
        _ => true,
    }
}

/// `inlines` are in normal form, each of them, and no two plain texts
/// among them are neighbours.
pub open spec fn inlines_settled(inlines: Seq<InlineView>) -> bool
    decreases inlines, 1nat,
{
    &&& forall|i: int| 0 <= i < inlines.len() ==> inline_settled(#[trigger] inlines[i])
    &&& forall|i: int|
        0 <= i < inlines.len() - 1 ==> !(is_plain(#[trigger] inlines[i]) && is_plain(
            inlines[i + 1],
        ))
}

/// `block` is in normal form.
pub open spec fn block_settled(block: BlockView) -> bool
    decreases block, 0nat,
{
    match block {
        BlockView::Text(_, inlines) => inlines_settled(inlines),
        BlockView::Nest(_, blocks) => forall|i: int|
            0 <= i < blocks.len() ==> block_settled(#[trigger] blocks[i]),
        _ => true,
    }
}

/// The document is in normal form.
pub open spec fn settled(blocks: Seq<BlockView>) -> bool {
    forall|i: int| 0 <= i < blocks.len() ==> block_settled(#[trigger] blocks[i])
}

/// Merging an inline in normal form into inlines in normal form gives
/// inlines in normal form.
proof fn lemma_merged_settled(done: Seq<InlineView>, inline: InlineView)
    requires
        inlines_settled(done),
        inline_settled(inline),
    ensures
        inlines_settled(merged(done, inline)),
{
    let result = merged(done, inline);
    if done.len() > 0 && is_plain(done.last()) && is_plain(inline) {
        let joint = InlineView::Text(TextKindView::Str, done.last()->Text_1 + inline->Text_1);
        assert(inline_settled(joint));
        assert forall|i: int| 0 <= i < result.len() implies inline_settled(
            #[trigger] result[i],
        ) by {
            if i < done.len() - 1 {
                assert(result[i] == done[i]);
            }
        }
        assert forall|i: int| 0 <= i < result.len() - 1 implies !(is_plain(#[trigger] result[i])
            && is_plain(result[i + 1])) by {
            assert(result[i] == done[i]);
            if i + 1 < done.len() - 1 {
                assert(result[i + 1] == done[i + 1]);
            } else {
                assert(is_plain(done[i + 1]));
            }
        }
    } else {
        assert forall|i: int| 0 <= i < result.len() implies inline_settled(
            #[trigger] result[i],
        ) by {
            if i < done.len() {
                assert(result[i] == done[i]);
            }
        }
        assert forall|i: int| 0 <= i < result.len() - 1 implies !(is_plain(#[trigger] result[i])
            && is_plain(result[i + 1])) by {
            assert(result[i] == done[i]);
            if i + 1 < done.len() {
                assert(result[i + 1] == done[i + 1]);
            }
        }
    }
}

/// Normalizing an inline gives an inline in normal form.
proof fn lemma_inline_normalized_settled(inline: InlineView)
    ensures
        inline_settled(inline_normalized(inline)),
    decreases inline, 0nat,
{
    match inline {
        InlineView::Container(_, children) => {
            lemma_inlines_normalized_settled(children, children.len());
        },
        InlineView::Note(blocks) => {
            lemma_blocks_normalized_settled(blocks);
        },
        _ => {},
    }
}

/// Normalizing inlines gives inlines in normal form.
proof fn lemma_inlines_normalized_settled(inlines: Seq<InlineView>, n: nat)
    ensures
        inlines_settled(inlines_normalized_upto(inlines, n)),
    decreases inlines, n,
{
    if n == 0 || n > inlines.len() {
    } else {
        lemma_inlines_normalized_settled(inlines, (n - 1) as nat);
        lemma_inline_normalized_settled(inlines[n - 1]);
        lemma_merged_settled(
            inlines_normalized_upto(inlines, (n - 1) as nat),
            inline_normalized(inlines[n - 1]),
        );
    }
}

/// Normalizing blocks gives blocks in normal form.
proof fn lemma_blocks_normalized_settled(blocks: Seq<BlockView>)
    ensures
        settled(blocks_normalized(blocks)),
    decreases blocks, 0nat,
{
    let result = blocks_normalized(blocks);
    assert forall|i: int| 0 <= i < result.len() implies block_settled(#[trigger] result[i]) by {
        match blocks[i] {
            BlockView::Text(_, inlines) => {
                lemma_inlines_normalized_settled(inlines, inlines.len());
            },
            BlockView::Nest(_, inner) => {
                lemma_blocks_normalized_settled(inner);
            },
            _ => {},
        }
    }
}

/// Normalizing leaves an inline in normal form as it is.
proof fn lemma_inline_settled_fixed(inline: InlineView)
    requires
        inline_settled(inline),
    ensures
        inline_normalized(inline) == inline,
    decreases inline, 0nat,
{
    match inline {
        InlineView::Container(_, children) => {
            lemma_inlines_settled_fixed(children, children.len());
            assert(children.take(children.len() as int) =~= children);
        },
        InlineView::Note(blocks) => {
            lemma_blocks_settled_fixed(blocks);
        },
        _ => {},
    }
}

/// Normalizing leaves inlines in normal form as they are.
proof fn lemma_inlines_settled_fixed(inlines: Seq<InlineView>, n: nat)
    requires
        inlines_settled(inlines),
        n <= inlines.len(),
    ensures
        inlines_normalized_upto(inlines, n) == inlines.take(n as int),
    decreases inlines, n,
{
    if n == 0 {
        assert(inlines.take(0) =~= Seq::empty());
    } else {
        lemma_inlines_settled_fixed(inlines, (n - 1) as nat);
        assert(inline_settled(inlines[n - 1]));
        lemma_inline_settled_fixed(inlines[n - 1]);
        let done = inlines.take(n - 1);
        if done.len() > 0 {
            assert(done.last() == inlines[n - 2]);
            assert(!(is_plain(inlines[n - 2]) && is_plain(inlines[n - 2 + 1])));
        }
        assert(merged(done, inlines[n - 1]) =~= inlines.take(n as int));
    }
}

/// Normalizing leaves blocks in normal form as they are.
proof fn lemma_blocks_settled_fixed(blocks: Seq<BlockView>)
    requires
        settled(blocks),
    ensures
        blocks_normalized(blocks) == blocks,
    decreases blocks, 0nat,
{
    let result = blocks_normalized(blocks);
    assert forall|i: int| 0 <= i < blocks.len() implies result[i] == blocks[i] by {
        assert(block_settled(blocks[i]));
        match blocks[i] {
            BlockView::Text(_, inlines) => {
                lemma_inlines_settled_fixed(inlines, inlines.len());
                assert(inlines.take(inlines.len() as int) =~= inlines);
            },
            BlockView::Nest(_, inner) => {
                lemma_blocks_settled_fixed(inner);
            },
            _ => {},
        }
    }
    assert(result =~= blocks);
}

/// Normal form: after normalizing, no layout space is left anywhere in
/// the document, footnotes included, and nowhere are two plain texts
/// neighbours.
pub proof fn law_normalized_settled(blocks: Seq<BlockView>)
    ensures
        settled(blocks_normalized(blocks)),
{
    lemma_blocks_normalized_settled(blocks);
}

/// Idempotence: normalizing a second time changes nothing.
pub proof fn law_normalize_idempotent(blocks: Seq<BlockView>)
    ensures
        blocks_normalized(blocks_normalized(blocks)) == blocks_normalized(blocks),
{
    lemma_blocks_normalized_settled(blocks);
    lemma_blocks_settled_fixed(blocks_normalized(blocks));
}

/// What is left of `inline` when every leaf text below it, footnotes
/// included, is blotted out: its structure.
pub open spec fn inline_shape(inline: InlineView) -> InlineView
    decreases inline,
{
    match inline {
        InlineView::Text(kind, _) => InlineView::Text(kind, Seq::empty()),
        InlineView::Container(kind, children) => InlineView::Container(
            kind,
            inlines_shape(children),
        ),
        InlineView::Note(blocks) => InlineView::Note(shape(blocks)),
        _ => inline,
    }
}

/// The structure of each of `inlines`.
pub open spec fn inlines_shape(inlines: Seq<InlineView>) -> Seq<InlineView>
    decreases inlines,
{
    Seq::new(
        inlines.len(),
        |i: int|
            if 0 <= i < inlines.len() {
                inline_shape(inlines[i])
            } else {
                inlines[i]
            },
    )
}

/// The structure of `block`.
pub open spec fn block_shape(block: BlockView) -> BlockView
    decreases block,
{
    match block {
        BlockView::Text(kind, inlines) => BlockView::Text(kind, inlines_shape(inlines)),
        BlockView::Nest(kind, blocks) => BlockView::Nest(kind, shape(blocks)),
        _ => block,
    }
}

/// The structure of a document: every element as it is, every leaf text
/// blotted out.
pub open spec fn shape(blocks: Seq<BlockView>) -> Seq<BlockView>
    decreases blocks,
{
    Seq::new(
        blocks.len(),
        |i: int|
            if 0 <= i < blocks.len() {
                block_shape(blocks[i])
            } else {
                blocks[i]
            },
    )
}

/// Filling the leaves keeps the structure.
proof fn lemma_filled_shape(inlines: Seq<InlineView>, fragments: Seq<Seq<char>>, at: int)
    ensures
        inlines_shape(filled_from(inlines, fragments, at)) == inlines_shape(inlines),
    decreases inlines,
{
    let result = filled_from(inlines, fragments, at);
    assert forall|i: int| 0 <= i < inlines.len() implies inline_shape(result[i]) == inline_shape(
        inlines[i],
    ) by {
        match inlines[i] {
            InlineView::Container(_, children) => {
                lemma_filled_shape(
                    children,
                    fragments,
                    at + leaves_upto(inlines, i as nat).len(),
                );
            },
            _ => {},
        }
    }
    assert(inlines_shape(result) =~= inlines_shape(inlines));
}

/// Serving the footnotes keeps the structure.
proof fn lemma_notes_shape(inlines: Seq<InlineView>, n: nat, tasks: TasksView)
    requires
        n <= inlines.len(),
        notes_reinserted_upto(inlines, n, tasks) is Ok,
    ensures
        inlines_shape(notes_reinserted_upto(inlines, n, tasks)->Ok_0.0) == inlines_shape(
            inlines.take(n as int),
        ),
    decreases inlines, n, 0nat,
{
    let (done, _) = notes_reinserted_upto(inlines, n, tasks)->Ok_0;
    if n == 0 {
        assert(inlines_shape(done) =~= inlines_shape(inlines.take(0)));
    } else {
        lemma_notes_shape(inlines, (n - 1) as nat, tasks);
        let (before, middle) = notes_reinserted_upto(inlines, (n - 1) as nat, tasks)->Ok_0;
        let last = inlines[n - 1];
        let (new, _) = inline_notes_reinserted(last, middle)->Ok_0;
        match last {
            InlineView::Container(_, children) => {
                lemma_notes_shape(children, children.len(), middle);
                assert(children.take(children.len() as int) =~= children);
            },
            InlineView::Note(blocks) => {
                lemma_reinserted_shape(blocks, blocks.len(), TaskType::Side, middle);
                assert(blocks.take(blocks.len() as int) =~= blocks);
            },
            _ => {},
        }
        assert(inline_shape(new) == inline_shape(last));
        lemma_notes_consumed(inlines, (n - 1) as nat, tasks);
        assert(done == before.push(new));
        assert forall|i: int| 0 <= i < n implies inlines_shape(done)[i] == inlines_shape(
            inlines.take(n as int),
        )[i] by {
            if i < n - 1 {
                assert(inlines_shape(before)[i] == inlines_shape(inlines.take(n - 1))[i]);
            }
        }
        assert(inlines_shape(done) =~= inlines_shape(inlines.take(n as int)));
    }
}

/// Reinsertion keeps the structure.
proof fn lemma_reinserted_shape(
    blocks: Seq<BlockView>,
    n: nat,
    task_type: TaskType,
    tasks: TasksView,
)
    requires
        n <= blocks.len(),
        reinserted_upto(blocks, n, task_type, tasks) is Ok,
    ensures
        shape(reinserted_upto(blocks, n, task_type, tasks)->Ok_0.0) == shape(
            blocks.take(n as int),
        ),
    decreases blocks, n, 1nat,
{
    let (done, _) = reinserted_upto(blocks, n, task_type, tasks)->Ok_0;
    if n == 0 {
        assert(shape(done) =~= shape(blocks.take(0)));
    } else {
        lemma_reinserted_shape(blocks, (n - 1) as nat, task_type, tasks);
        let (before, middle) = reinserted_upto(blocks, (n - 1) as nat, task_type, tasks)->Ok_0;
        let last = blocks[n - 1];
        let (new, _) = block_reinserted(last, task_type, middle)->Ok_0;
        match last {
            BlockView::Text(_, inlines) => {
                lemma_notes_shape(inlines, inlines.len(), middle);
                assert(inlines.take(inlines.len() as int) =~= inlines);
                let (served, queues) = notes_reinserted_upto(inlines, inlines.len(), middle)->Ok_0;
                lemma_filled_shape(served, fragments_of(queues.queue(task_type)[0]), 0);
            },
            BlockView::Nest(_, inner) => {
                lemma_reinserted_shape(inner, inner.len(), task_type, middle);
                assert(inner.take(inner.len() as int) =~= inner);
            },
            _ => {},
        }
        assert(block_shape(new) == block_shape(last));
        lemma_blocks_consumed(blocks, (n - 1) as nat, task_type, tasks);
        assert(done == before.push(new));
        assert forall|i: int| 0 <= i < n implies shape(done)[i] == shape(blocks.take(n as int))[i] by {
            if i < n - 1 {
                assert(shape(before)[i] == shape(blocks.take(n - 1))[i]);
            }
        }
        assert(shape(done) =~= shape(blocks.take(n as int)));
    }
}

/// Structure is kept: reinsertion changes leaf texts and nothing else.
/// Every block and inline, every attribute, every inert element of the
/// document stands after it as it stood before.
pub proof fn law_structure_kept(blocks: Seq<BlockView>, tasks: TasksView)
    requires
        reinserted(blocks, tasks) is Ok,
    ensures
        shape(reinserted(blocks, tasks)->Ok_0.0) == shape(blocks),
{
    lemma_reinserted_shape(blocks, blocks.len(), TaskType::Main, tasks);
    assert(blocks.take(blocks.len() as int) =~= blocks);
}

/// How many text leaves each translatable block has: one number for each
/// chunk that extraction yields, queue by queue and in the order of the
/// chunks.
#[verifier::ext_equal]
pub struct LeafCounts {
    pub main: Seq<nat>,
    pub sides: Seq<nat>,
}

impl LeafCounts {
    /// No block at all.
    pub open spec fn empty() -> LeafCounts {
        LeafCounts { main: Seq::empty(), sides: Seq::empty() }
    }

    /// The counts with that of one more block at the back of a queue.
    pub open spec fn added(self, count: nat, task_type: TaskType) -> LeafCounts {
        match task_type {
            TaskType::Main => LeafCounts { main: self.main.push(count), sides: self.sides },
            TaskType::Side => LeafCounts { main: self.main, sides: self.sides.push(count) },
        }
    }

    /// Each queue of `self` followed by the same queue of `more`.
    pub open spec fn concat(self, more: LeafCounts) -> LeafCounts {
        LeafCounts { main: self.main + more.main, sides: self.sides + more.sides }
    }
}

/// The leaf counts of the blocks in the footnotes below `inline`, in the
/// order of their chunks.
pub open spec fn inline_note_counts(inline: InlineView) -> Seq<nat>
    decreases inline, 0nat,
{
    match inline {
        InlineView::Container(_, children) => note_counts_upto(children, children.len()),
        InlineView::Note(blocks) => counts_upto(blocks, blocks.len(), TaskType::Side).sides,
        _ => Seq::empty(),
    }
}

/// The leaf counts of the blocks in the footnotes below the first `n` of
/// `inlines`.
pub open spec fn note_counts_upto(inlines: Seq<InlineView>, n: nat) -> Seq<nat>
    decreases inlines, n,
{
    if n == 0 || n > inlines.len() {
        Seq::empty()
    } else {
        note_counts_upto(inlines, (n - 1) as nat) + inline_note_counts(inlines[n - 1])
    }
}

/// The leaf counts of the translatable blocks at `block` and below it:
/// for a translatable block those of its footnotes, then its own.
pub open spec fn block_counts(block: BlockView, task_type: TaskType) -> LeafCounts
    decreases block, 0nat,
{
    match block {
        BlockView::Text(_, inlines) => LeafCounts {
            main: Seq::empty(),
            sides: note_counts_upto(inlines, inlines.len()),
        }.added(leaves(inlines).len(), task_type),
        BlockView::Nest(_, blocks) => counts_upto(blocks, blocks.len(), task_type),
        _ => LeafCounts::empty(),
    }
}

/// The leaf counts of the translatable blocks in the first `n` of
/// `blocks`.
pub open spec fn counts_upto(blocks: Seq<BlockView>, n: nat, task_type: TaskType) -> LeafCounts
    decreases blocks, n,
{
    if n == 0 || n > blocks.len() {
        LeafCounts::empty()
    } else {
        counts_upto(blocks, (n - 1) as nat, task_type).concat(
            block_counts(blocks[n - 1], task_type),
        )
    }
}

/// The leaf count of every translatable block of a document, in the order
/// of the chunks that extraction yields.
pub open spec fn leaf_counts(blocks: Seq<BlockView>) -> LeafCounts {
    counts_upto(blocks, blocks.len(), TaskType::Main)
}

/// The queue holds a chunk for each of the blocks counted, and each of
/// these chunks fits its block.
pub open spec fn queue_fits(queue: Seq<Seq<char>>, counts: Seq<nat>) -> bool {
    &&& queue.len() >= counts.len()
    &&& forall|i: int| 0 <= i < counts.len() ==> fits(#[trigger] queue[i], counts[i])
}

/// Both queues hold enough chunks, and each chunk fits its block.
pub open spec fn fitting(tasks: TasksView, counts: LeafCounts) -> bool {
    queue_fits(tasks.main, counts.main) && queue_fits(tasks.sides, counts.sides)
}

/// The queues without the chunks that the blocks counted take.
pub open spec fn left_over(tasks: TasksView, counts: LeafCounts) -> TasksView {
    TasksView {
        main: tasks.main.skip(counts.main.len() as int),
        sides: tasks.sides.skip(counts.sides.len() as int),
    }
}

/// A queue that fits two runs of blocks fits the first, and what is left
/// of it fits the second.
proof fn lemma_queue_fits_split(queue: Seq<Seq<char>>, first: Seq<nat>, second: Seq<nat>)
    requires
        queue_fits(queue, first + second),
    ensures
        queue_fits(queue, first),
        queue_fits(queue.skip(first.len() as int), second),
        queue.skip(first.len() as int).skip(second.len() as int) == queue.skip(
            (first + second).len() as int,
        ),
{
    let both = first + second;
    assert forall|i: int| 0 <= i < first.len() implies fits(#[trigger] queue[i], first[i]) by {
        assert(both[i] == first[i]);
    }
    let rest = queue.skip(first.len() as int);
    assert forall|i: int| 0 <= i < second.len() implies fits(#[trigger] rest[i], second[i]) by {
        assert(both[first.len() + i] == second[i]);
        assert(fits(queue[first.len() + i], both[first.len() + i]));
    }
    assert(rest.skip(second.len() as int) =~= queue.skip(both.len() as int));
}

/// Blocks of a footnote body count for the side queue alone.
proof fn lemma_side_counts(blocks: Seq<BlockView>, n: nat)
    ensures
        counts_upto(blocks, n, TaskType::Side).main == Seq::<nat>::empty(),
    decreases blocks, n,
{
    if n == 0 || n > blocks.len() {
    } else {
        lemma_side_counts(blocks, (n - 1) as nat);
        match blocks[n - 1] {
            BlockView::Nest(_, inner) => {
                lemma_side_counts(inner, inner.len());
            },
            _ => {},
        }
        assert(block_counts(blocks[n - 1], TaskType::Side).main =~= Seq::<nat>::empty());
        assert(counts_upto(blocks, n, TaskType::Side).main =~= Seq::<nat>::empty());
    }
}

/// There is one count for each chunk.
pub proof fn lemma_counts_match_chunks(blocks: Seq<BlockView>, n: nat, task_type: TaskType)
    ensures
        counts_upto(blocks, n, task_type).main.len() == chunks_upto(blocks, n, task_type).main.len(),
        counts_upto(blocks, n, task_type).sides.len() == chunks_upto(
            blocks,
            n,
            task_type,
        ).sides.len(),
    decreases blocks, n, 1nat,
{
    if n == 0 || n > blocks.len() {
    } else {
        lemma_counts_match_chunks(blocks, (n - 1) as nat, task_type);
        match blocks[n - 1] {
            BlockView::Text(_, inlines) => {
                lemma_note_counts_match_chunks(inlines, inlines.len());
            },
            BlockView::Nest(_, inner) => {
                lemma_counts_match_chunks(inner, inner.len(), task_type);
            },
            _ => {},
        }
        assert(block_counts(blocks[n - 1], task_type).main.len() == block_chunks(
            blocks[n - 1],
            task_type,
        ).main.len());
        assert(block_counts(blocks[n - 1], task_type).sides.len() == block_chunks(
            blocks[n - 1],
            task_type,
        ).sides.len());
    }
}

/// There is one count for each chunk of the footnotes.
proof fn lemma_note_counts_match_chunks(inlines: Seq<InlineView>, n: nat)
    ensures
        note_counts_upto(inlines, n).len() == note_chunks_upto(inlines, n).len(),
    decreases inlines, n, 0nat,
{
    if n == 0 || n > inlines.len() {
    } else {
        lemma_note_counts_match_chunks(inlines, (n - 1) as nat);
        match inlines[n - 1] {
            InlineView::Container(_, children) => {
                lemma_note_counts_match_chunks(children, children.len());
            },
            InlineView::Note(blocks) => {
                lemma_counts_match_chunks(blocks, blocks.len(), TaskType::Side);
            },
            _ => {},
        }
        assert(inline_note_counts(inlines[n - 1]).len() == inline_note_chunks(
            inlines[n - 1],
        ).len());
    }
}

/// The footnotes of supported inlines are served where the side queue
/// fits them, and take exactly their chunks off it.
proof fn lemma_notes_succeed(inlines: Seq<InlineView>, n: nat, tasks: TasksView)
    requires
        n <= inlines.len(),
        inlines_supported_upto(inlines, n),
        queue_fits(tasks.sides, note_counts_upto(inlines, n)),
    ensures
        notes_reinserted_upto(inlines, n, tasks) is Ok,
        notes_reinserted_upto(inlines, n, tasks)->Ok_0.1 == (TasksView {
            main: tasks.main,
            sides: tasks.sides.skip(note_counts_upto(inlines, n).len() as int),
        }),
    decreases inlines, n, 0nat,
{
    if n == 0 {
        assert(tasks.sides.skip(0) =~= tasks.sides);
    } else {
        let before = note_counts_upto(inlines, (n - 1) as nat);
        let last = inlines[n - 1];
        let own = inline_note_counts(last);
        lemma_queue_fits_split(tasks.sides, before, own);
        lemma_notes_succeed(inlines, (n - 1) as nat, tasks);
        let middle = notes_reinserted_upto(inlines, (n - 1) as nat, tasks)->Ok_0.1;
        assert(inline_supported(last));
        match last {
            InlineView::Container(_, children) => {
                lemma_notes_succeed(children, children.len(), middle);
            },
            InlineView::Note(blocks) => {
                lemma_side_counts(blocks, blocks.len());
                let counts = counts_upto(blocks, blocks.len(), TaskType::Side);
                assert(queue_fits(middle.main, counts.main));
                lemma_blocks_succeed(blocks, blocks.len(), TaskType::Side, middle);
                assert(middle.main.skip(0) =~= middle.main);
            },
            _ => {
                assert(middle.sides.skip(0) =~= middle.sides);
            },
        }
        assert(inline_notes_reinserted(last, middle) is Ok);
        assert(inline_notes_reinserted(last, middle)->Ok_0.1 == (TasksView {
            main: middle.main,
            sides: middle.sides.skip(own.len() as int),
        }));
    }
}

/// Supported blocks are served where the queues fit them, and take
/// exactly their chunks off the queues.
proof fn lemma_blocks_succeed(
    blocks: Seq<BlockView>,
    n: nat,
    task_type: TaskType,
    tasks: TasksView,
)
    requires
        n <= blocks.len(),
        blocks_supported_upto(blocks, n),
        fitting(tasks, counts_upto(blocks, n, task_type)),
    ensures
        reinserted_upto(blocks, n, task_type, tasks) is Ok,
        reinserted_upto(blocks, n, task_type, tasks)->Ok_0.1 == left_over(
            tasks,
            counts_upto(blocks, n, task_type),
        ),
    decreases blocks, n, 1nat,
{
    if n == 0 {
        assert(left_over(tasks, counts_upto(blocks, n, task_type)) =~= tasks);
    } else {
        let before = counts_upto(blocks, (n - 1) as nat, task_type);
        let last = blocks[n - 1];
        let own = block_counts(last, task_type);
        lemma_queue_fits_split(tasks.main, before.main, own.main);
        lemma_queue_fits_split(tasks.sides, before.sides, own.sides);
        lemma_blocks_succeed(blocks, (n - 1) as nat, task_type, tasks);
        let middle = reinserted_upto(blocks, (n - 1) as nat, task_type, tasks)->Ok_0.1;
        assert(middle == left_over(tasks, before));
        assert(fitting(middle, own));
        assert(block_supported(last));
        match last {
            BlockView::Text(_, inlines) => {
                let notes = note_counts_upto(inlines, inlines.len());
                let count = leaves(inlines).len();
                match task_type {
                    TaskType::Main => {
                        assert(own.sides =~= notes);
                        assert(own.main =~= seq![count]);
                    },
                    TaskType::Side => {
                        assert(own.sides =~= notes + seq![count]);
                        lemma_queue_fits_split(middle.sides, notes, seq![count]);
                    },
                }
                lemma_notes_succeed(inlines, inlines.len(), middle);
                lemma_notes_consumed(inlines, inlines.len(), middle);
                let (served, queues) = notes_reinserted_upto(inlines, inlines.len(), middle)->Ok_0;
                assert(leaves(served) == leaves(inlines));
                let queue = queues.queue(task_type);
                assert(queue.len() > 0 && fits(queue[0], count)) by {
                    match task_type {
                        TaskType::Main => {
                            assert(fits(middle.main[0], own.main[0]));
                        },
                        TaskType::Side => {
                            let rest = middle.sides.skip(notes.len() as int);
                            assert(fits(rest[0], seq![count][0]));
                        },
                    }
                }
                assert(queues.collected(task_type) =~= left_over(middle, own));
            },
            BlockView::Nest(_, inner) => {
                lemma_blocks_succeed(inner, inner.len(), task_type, middle);
            },
            _ => {
                assert(left_over(middle, own) =~= middle);
            },
        }
        assert(block_reinserted(last, task_type, middle) is Ok);
        assert(block_reinserted(last, task_type, middle)->Ok_0.1 == left_over(middle, own));
        assert(left_over(middle, own) =~= left_over(tasks, before.concat(own)));
    }
}

/// A queue that fits a first run of blocks, and whose rest fits a second,
/// fits the two in a row.
proof fn lemma_queue_fits_join(queue: Seq<Seq<char>>, first: Seq<nat>, second: Seq<nat>)
    requires
        queue_fits(queue, first),
        queue_fits(queue.skip(first.len() as int), second),
    ensures
        queue_fits(queue, first + second),
{
    let both = first + second;
    let rest = queue.skip(first.len() as int);
    assert forall|i: int| 0 <= i < both.len() implies fits(#[trigger] queue[i], both[i]) by {
        if i < first.len() {
            assert(both[i] == first[i]);
        } else {
            assert(both[i] == second[i - first.len()]);
            assert(fits(rest[i - first.len()], second[i - first.len()]));
            assert(rest[i - first.len()] == queue[i]);
        }
    }
}

/// Where the footnotes were served, the inlines are supported and the
/// side queue fits them.
proof fn lemma_notes_served(inlines: Seq<InlineView>, n: nat, tasks: TasksView)
    requires
        n <= inlines.len(),
        notes_reinserted_upto(inlines, n, tasks) is Ok,
    ensures
        inlines_supported_upto(inlines, n),
        queue_fits(tasks.sides, note_counts_upto(inlines, n)),
    decreases inlines, n, 0nat,
{
    if n > 0 {
        lemma_notes_served(inlines, (n - 1) as nat, tasks);
        lemma_notes_succeed(inlines, (n - 1) as nat, tasks);
        let before = note_counts_upto(inlines, (n - 1) as nat);
        let middle = notes_reinserted_upto(inlines, (n - 1) as nat, tasks)->Ok_0.1;
        let last = inlines[n - 1];
        let own = inline_note_counts(last);
        assert(inline_notes_reinserted(last, middle) is Ok);
        match last {
            InlineView::Container(_, children) => {
                lemma_notes_served(children, children.len(), middle);
            },
            InlineView::Note(blocks) => {
                lemma_blocks_served(blocks, blocks.len(), TaskType::Side, middle);
            },
            _ => {},
        }
        assert(inline_supported(last));
        assert(queue_fits(middle.sides, own));
        lemma_queue_fits_join(tasks.sides, before, own);
    }
}

/// Where the blocks were served, they are supported and the queues fit
/// them.
proof fn lemma_blocks_served(
    blocks: Seq<BlockView>,
    n: nat,
    task_type: TaskType,
    tasks: TasksView,
)
    requires
        n <= blocks.len(),
        reinserted_upto(blocks, n, task_type, tasks) is Ok,
    ensures
        blocks_supported_upto(blocks, n),
        fitting(tasks, counts_upto(blocks, n, task_type)),
    decreases blocks, n, 1nat,
{
    if n > 0 {
        lemma_blocks_served(blocks, (n - 1) as nat, task_type, tasks);
        lemma_blocks_succeed(blocks, (n - 1) as nat, task_type, tasks);
        let before = counts_upto(blocks, (n - 1) as nat, task_type);
        let middle = reinserted_upto(blocks, (n - 1) as nat, task_type, tasks)->Ok_0.1;
        let last = blocks[n - 1];
        let own = block_counts(last, task_type);
        assert(block_reinserted(last, task_type, middle) is Ok);
        match last {
            BlockView::Text(_, inlines) => {
                let notes = note_counts_upto(inlines, inlines.len());
                let count = leaves(inlines).len();
                lemma_notes_served(inlines, inlines.len(), middle);
                lemma_notes_succeed(inlines, inlines.len(), middle);
                lemma_notes_consumed(inlines, inlines.len(), middle);
                let (served, queues) = notes_reinserted_upto(inlines, inlines.len(), middle)->Ok_0;
                assert(leaves(served) == leaves(inlines));
                let queue = queues.queue(task_type);
                assert(queue.len() > 0 && fits(queue[0], count));
                match task_type {
                    TaskType::Main => {
                        assert(own.sides =~= notes);
                        assert(own.main =~= seq![count]);
                        assert(queue_fits(middle.main, own.main));
                    },
                    TaskType::Side => {
                        assert(own.main =~= Seq::<nat>::empty());
                        assert(own.sides =~= notes + seq![count]);
                        assert(queue_fits(middle.sides.skip(notes.len() as int), seq![count]));
                        lemma_queue_fits_join(middle.sides, notes, seq![count]);
                    },
                }
            },
            BlockView::Nest(_, inner) => {
                lemma_blocks_served(inner, inner.len(), task_type, middle);
            },
            _ => {},
        }
        assert(block_supported(last));
        assert(fitting(middle, own));
        lemma_queue_fits_join(tasks.main, before.main, own.main);
        lemma_queue_fits_join(tasks.sides, before.sides, own.sides);
    }
}

/// Reinsertion succeeds on exactly these inputs: the document is
/// supported, and the queues hold, for each translatable block in the order
/// of extraction, a chunk that fits the block.
pub proof fn law_reinsertion_succeeds_exactly(blocks: Seq<BlockView>, tasks: TasksView)
    ensures
        reinserted(blocks, tasks) is Ok <==> supported(blocks) && fitting(
            tasks,
            leaf_counts(blocks),
        ),
{
    if reinserted(blocks, tasks) is Ok {
        lemma_blocks_served(blocks, blocks.len(), TaskType::Main, tasks);
    }
    if supported(blocks) && fitting(tasks, leaf_counts(blocks)) {
        lemma_blocks_succeed(blocks, blocks.len(), TaskType::Main, tasks);
    }
}

/// When reinsertion succeeds: a supported document takes any queues that
/// hold, for each of its translatable blocks in the order of extraction, a
/// chunk that fits the block. It uses up exactly those chunks; the rewritten
/// document is supported again, and yields exactly those chunks when its
/// chunks are extracted: chunk i of each queue went into the block that gave
/// chunk i.
pub proof fn law_reinsertion_succeeds(blocks: Seq<BlockView>, tasks: TasksView)
    requires
        supported(blocks),
        fitting(tasks, leaf_counts(blocks)),
    ensures
        leaf_counts(blocks).main.len() == extracted(blocks).main.len(),
        leaf_counts(blocks).sides.len() == extracted(blocks).sides.len(),
        reinserted(blocks, tasks) is Ok,
        ({
            let (done, left) = reinserted(blocks, tasks)->Ok_0;
            &&& supported(done)
            &&& left == left_over(tasks, leaf_counts(blocks))
            &&& extracted(done).main == tasks.main.take(extracted(blocks).main.len() as int)
            &&& extracted(done).sides == tasks.sides.take(extracted(blocks).sides.len() as int)
        }),
{
    lemma_counts_match_chunks(blocks, blocks.len(), TaskType::Main);
    lemma_blocks_succeed(blocks, blocks.len(), TaskType::Main, tasks);
    law_order_correspondence(blocks, tasks);
    law_structure_kept(blocks, tasks);
    lemma_shape_supported(blocks);
    lemma_shape_supported(reinserted(blocks, tasks)->Ok_0.0);
    let (done, left) = reinserted(blocks, tasks)->Ok_0;
    assert(extracted(done).main =~= tasks.main.take(extracted(blocks).main.len() as int));
    assert(extracted(done).sides =~= tasks.sides.take(extracted(blocks).sides.len() as int));
}

/// No text leaf that the plain walk reads below `block` holds the
/// separator. The leaves of footnotes are not read.
pub open spec fn block_leaves_free(block: BlockView) -> bool
    decreases block,
{
    match block {
        BlockView::Text(_, inlines) => all_separator_free(leaves(inlines)),
        BlockView::Nest(_, blocks) => forall|i: int|
            0 <= i < blocks.len() ==> block_leaves_free(#[trigger] blocks[i]),
        _ => true,
    }
}

/// No text leaf that the plain walk reads holds the separator.
pub open spec fn leaves_free(blocks: Seq<BlockView>) -> bool {
    forall|i: int| 0 <= i < blocks.len() ==> block_leaves_free(#[trigger] blocks[i])
}

/// A block that groups blocks has separator-free leaves exactly when
/// they all have.
proof fn lemma_nest_leaves_free(block: BlockView)
    requires
        block is Nest,
    ensures
        block_leaves_free(block) == leaves_free(block->Nest_1),
{
    reveal_with_fuel(block_leaves_free, 2);
}

/// The plain walk hands blocks their own chunks back where it finds them
/// in the queue from position `at` on, and leaves the blocks as they were.
proof fn lemma_plain_round_trip(blocks: Seq<BlockView>, n: nat, mipcs: Seq<Seq<char>>, at: int)
    requires
        n <= blocks.len(),
        blocks_plain(blocks),
        leaves_free(blocks),
        0 <= at,
        at + mipcs_upto(blocks, n).len() <= mipcs.len(),
        forall|j: int|
            0 <= j < mipcs_upto(blocks, n).len() ==> #[trigger] mipcs[at + j] == mipcs_upto(
                blocks,
                n,
            )[j],
    ensures
        applied_upto(blocks, n, mipcs, at) == Ok::<(Seq<BlockView>, int), crate::chunk::ChunkError>(
            (blocks.take(n as int), at + mipcs_upto(blocks, n).len()),
        ),
    decreases blocks, n,
{
    if n == 0 {
        assert(blocks.take(0) =~= Seq::empty());
    } else {
        let before = mipcs_upto(blocks, (n - 1) as nat);
        let last = blocks[n - 1];
        let own = block_mipcs(last);
        let all = mipcs_upto(blocks, n);
        assert(all == before + own);
        assert forall|j: int| 0 <= j < before.len() implies #[trigger] mipcs[at + j]
            == before[j] by {
            assert(all[j] == before[j]);
        }
        lemma_plain_round_trip(blocks, (n - 1) as nat, mipcs, at);
        let middle = at + before.len();
        assert forall|j: int| 0 <= j < own.len() implies #[trigger] mipcs[middle + j]
            == own[j] by {
            assert(all[before.len() + j] == own[j]);
            assert(mipcs[at + (before.len() + j)] == all[before.len() + j]);
        }
        assert(block_plain(last));
        assert(block_leaves_free(last));
        match last {
            BlockView::Text(_, inlines) => {
                let chunk = joined(leaves(inlines));
                assert(own[0] == chunk);
                assert(mipcs[middle + 0] == chunk);
                if leaves(inlines).len() > 0 {
                    lemma_joined_separators(leaves(inlines));
                    lemma_split_joined(leaves(inlines));
                }
                assert(fits(chunk, leaves(inlines).len()));
                lemma_filled_same(inlines, fragments_of(chunk), 0);
                assert(inlines_applied(inlines, chunk) == Ok::<
                    Seq<InlineView>,
                    crate::chunk::ChunkError,
                >(inlines));
            },
            BlockView::Nest(_, inner) => {
                lemma_nest_plain(last);
                lemma_nest_leaves_free(last);
                lemma_plain_round_trip(inner, inner.len(), mipcs, middle);
                assert(inner.take(inner.len() as int) =~= inner);
            },
            _ => {},
        }
        assert(block_applied(last, mipcs, middle) == Ok::<
            (BlockView, int),
            crate::chunk::ChunkError,
        >((last, middle + own.len())));
        assert(blocks.take(n as int) =~= blocks.take(n - 1).push(last));
    }
}

/// Round trip of the plain protocol: writing back the queue that the
/// plain walk gave, each chunk as it is, succeeds, uses up exactly those
/// chunks and gives the document back unchanged. This holds of every
/// document that the plain walk can serve and whose text leaves, footnotes
/// apart, hold no separator.
pub proof fn law_plain_round_trip(blocks: Seq<BlockView>, rest: Seq<Seq<char>>)
    requires
        blocks_plain(blocks),
        leaves_free(blocks),
    ensures
        applied_upto(blocks, blocks.len(), mipcs_upto(blocks, blocks.len()) + rest, 0) == Ok::<
            (Seq<BlockView>, int),
            crate::chunk::ChunkError,
        >((blocks, mipcs_upto(blocks, blocks.len()).len() as int)),
{
    let given = mipcs_upto(blocks, blocks.len());
    lemma_plain_round_trip(blocks, blocks.len(), given + rest, 0);
    assert(blocks.take(blocks.len() as int) =~= blocks);
}

/// A run of inlines is supported exactly when each of them is.
pub proof fn lemma_inlines_supported_each(inlines: Seq<InlineView>, n: nat)
    requires
        n <= inlines.len(),
    ensures
        inlines_supported_upto(inlines, n) <==> (forall|i: int|
            0 <= i < n ==> inline_supported(#[trigger] inlines[i])),
    decreases n,
{
    if n > 0 {
        lemma_inlines_supported_each(inlines, (n - 1) as nat);
        if inlines_supported_upto(inlines, n) {
            assert forall|i: int| 0 <= i < n implies inline_supported(#[trigger] inlines[i]) by {}
        }
    }
}

/// A run of blocks is supported exactly when each of them is.
pub proof fn lemma_blocks_supported_each(blocks: Seq<BlockView>, n: nat)
    requires
        n <= blocks.len(),
    ensures
        blocks_supported_upto(blocks, n) <==> (forall|i: int|
            0 <= i < n ==> block_supported(#[trigger] blocks[i])),
    decreases n,
{
    if n > 0 {
        lemma_blocks_supported_each(blocks, (n - 1) as nat);
        if blocks_supported_upto(blocks, n) {
            assert forall|i: int| 0 <= i < n implies block_supported(#[trigger] blocks[i]) by {}
        }
    }
}

/// Whether an inline is supported is a matter of its structure alone.
proof fn lemma_inline_shape_supported(inline: InlineView)
    ensures
        inline_supported(inline_shape(inline)) == inline_supported(inline),
    decreases inline, 0nat,
{
    match inline {
        InlineView::Container(_, children) => {
            lemma_inlines_shape_supported(children);
        },
        InlineView::Note(blocks) => {
            lemma_shape_supported(blocks);
        },
        _ => {},
    }
}

/// Whether inlines are supported is a matter of their structure alone.
proof fn lemma_inlines_shape_supported(inlines: Seq<InlineView>)
    ensures
        inlines_supported_upto(inlines_shape(inlines), inlines.len()) == inlines_supported_upto(
            inlines,
            inlines.len(),
        ),
    decreases inlines, 1nat,
{
    let shaped = inlines_shape(inlines);
    lemma_inlines_supported_each(inlines, inlines.len());
    lemma_inlines_supported_each(shaped, shaped.len());
    assert forall|i: int| 0 <= i < inlines.len() implies inline_supported(#[trigger] shaped[i])
        == inline_supported(inlines[i]) by {
        lemma_inline_shape_supported(inlines[i]);
    }
    if inlines_supported_upto(inlines, inlines.len()) {
        assert forall|i: int| 0 <= i < shaped.len() implies inline_supported(
            #[trigger] shaped[i],
        ) by {
            assert(inline_supported(inlines[i]));
        }
    }
    if inlines_supported_upto(shaped, shaped.len()) {
        assert forall|i: int| 0 <= i < inlines.len() implies inline_supported(
            #[trigger] inlines[i],
        ) by {
            assert(inline_supported(shaped[i]));
        }
    }
}

/// Whether a block is supported is a matter of its structure alone.
proof fn lemma_block_shape_supported(block: BlockView)
    ensures
        block_supported(block_shape(block)) == block_supported(block),
    decreases block, 0nat,
{
    match block {
        BlockView::Text(_, inlines) => {
            lemma_inlines_shape_supported(inlines);
        },
        BlockView::Nest(_, blocks) => {
            lemma_shape_supported(blocks);
        },
        _ => {},
    }
}

/// Whether a document is supported is a matter of its structure alone.
pub proof fn lemma_shape_supported(blocks: Seq<BlockView>)
    ensures
        supported(shape(blocks)) == supported(blocks),
    decreases blocks, 1nat,
{
    let shaped = shape(blocks);
    lemma_blocks_supported_each(blocks, blocks.len());
    lemma_blocks_supported_each(shaped, shaped.len());
    assert forall|i: int| 0 <= i < blocks.len() implies block_supported(#[trigger] shaped[i])
        == block_supported(blocks[i]) by {
        lemma_block_shape_supported(blocks[i]);
    }
    if supported(blocks) {
        assert forall|i: int| 0 <= i < shaped.len() implies block_supported(
            #[trigger] shaped[i],
        ) by {
            assert(block_supported(blocks[i]));
        }
    }
    if supported(shaped) {
        assert forall|i: int| 0 <= i < blocks.len() implies block_supported(
            #[trigger] blocks[i],
        ) by {
            assert(block_supported(shaped[i]));
        }
    }
}

/// Reinsertion keeps a document supported: what it rewrites can be
/// extracted again.
pub proof fn law_reinserted_supported(blocks: Seq<BlockView>, tasks: TasksView)
    requires
        reinserted(blocks, tasks) is Ok,
    ensures
        supported(blocks),
        supported(reinserted(blocks, tasks)->Ok_0.0),
{
    law_reinsertion_succeeds_exactly(blocks, tasks);
    law_structure_kept(blocks, tasks);
    lemma_shape_supported(blocks);
    lemma_shape_supported(reinserted(blocks, tasks)->Ok_0.0);
}

/// Merging a supported inline into supported inlines gives supported
/// inlines.
proof fn lemma_merged_supported(done: Seq<InlineView>, inline: InlineView)
    requires
        forall|i: int| 0 <= i < done.len() ==> inline_supported(#[trigger] done[i]),
        inline_supported(inline),
    ensures
        forall|i: int|
            0 <= i < merged(done, inline).len() ==> inline_supported(
                #[trigger] merged(done, inline)[i],
            ),
{
    let result = merged(done, inline);
    assert forall|i: int| 0 <= i < result.len() implies inline_supported(#[trigger] result[i]) by {
        if i < done.len() - 1 {
            assert(result[i] == done[i]);
        } else if i < done.len() && !(is_plain(done.last()) && is_plain(inline)) {
            assert(result[i] == done[i]);
        }
    }
}

/// Normalizing keeps an inline supported.
proof fn lemma_inline_normalized_supported(inline: InlineView)
    requires
        inline_supported(inline),
    ensures
        inline_supported(inline_normalized(inline)),
    decreases inline, 0nat,
{
    match inline {
        InlineView::Container(_, children) => {
            lemma_inlines_normalized_supported(children, children.len());
            let result = inlines_normalized_upto(children, children.len());
            lemma_inlines_supported_each(result, result.len());
        },
        InlineView::Note(blocks) => {
            lemma_blocks_normalized_supported(blocks);
        },
        _ => {},
    }
}

/// Normalizing keeps inlines supported.
proof fn lemma_inlines_normalized_supported(inlines: Seq<InlineView>, n: nat)
    requires
        n <= inlines.len(),
        inlines_supported_upto(inlines, n),
    ensures
        forall|i: int|
            0 <= i < inlines_normalized_upto(inlines, n).len() ==> inline_supported(
                #[trigger] inlines_normalized_upto(inlines, n)[i],
            ),
    decreases inlines, n,
{
    if n > 0 {
        lemma_inlines_normalized_supported(inlines, (n - 1) as nat);
        lemma_inline_normalized_supported(inlines[n - 1]);
        lemma_merged_supported(
            inlines_normalized_upto(inlines, (n - 1) as nat),
            inline_normalized(inlines[n - 1]),
        );
    }
}

/// Normalizing keeps blocks supported.
proof fn lemma_blocks_normalized_supported(blocks: Seq<BlockView>)
    requires
        supported(blocks),
    ensures
        supported(blocks_normalized(blocks)),
    decreases blocks, 0nat,
{
    let result = blocks_normalized(blocks);
    lemma_blocks_supported_each(blocks, blocks.len());
    assert forall|i: int| 0 <= i < result.len() implies block_supported(#[trigger] result[i]) by {
        assert(block_supported(blocks[i]));
        match blocks[i] {
            BlockView::Text(_, inlines) => {
                lemma_inlines_normalized_supported(inlines, inlines.len());
                let cleaned = inlines_normalized_upto(inlines, inlines.len());
                lemma_inlines_supported_each(cleaned, cleaned.len());
            },
            BlockView::Nest(_, inner) => {
                lemma_blocks_normalized_supported(inner);
            },
            _ => {},
        }
    }
    lemma_blocks_supported_each(result, result.len());
}

/// Normalizing keeps a document supported: what was imported can be
/// extracted.
pub proof fn law_normalized_supported(blocks: Seq<BlockView>)
    requires
        supported(blocks),
    ensures
        supported(blocks_normalized(blocks)),
{
    lemma_blocks_normalized_supported(blocks);
}

} // verus!
