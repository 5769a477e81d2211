//! The walks over a document tree: normalizing, extracting and reinserting.
use vstd::prelude::*;
use vstd::string::StringExecFns;
use crate::chunk::{AST, ChunkError, TaskType, Tasks, TasksView};
use crate::chunk::fragment::{join, lemma_fragment_count, split, texts};
use crate::chunk::laws::law_normalized_supported;
use crate::chunk::tree::{
    Block, BlockView, InertInline, Inline, InlineView, TextKind, block_view, blocks_cloned,
    blocks_view, inline_view, inlines_view,
};
use crate::chunk::walk::{
    block_chunks, block_normalized, block_reinserted, block_supported, blocks_normalized,
    blocks_supported_upto, chunks_upto, extracted, filled_from, inline_filled, inline_leaves,
    inline_normalized, inline_note_chunks, inline_notes_reinserted, inline_supported,
    inlines_normalized, inlines_normalized_upto, inlines_supported_upto, is_plain, leaves,
    leaves_upto, lemma_blocks_unsupported_at, lemma_inlines_unsupported_at, lemma_leaves_grow,
    lemma_notes_reinserted_fails, lemma_reinserted_fails, lemma_side_chunks, note_chunks_upto,
    notes_reinserted_upto, reinserted, reinserted_upto, supported,
};

verus! {

/// Collects the leaf texts of `inlines` at the end of `fragments`, and the
/// chunks of the footnotes it meets at the end of the side queue.
fn flatten_inlines(inlines: &Vec<Inline>, fragments: &mut Vec<String>, tasks: &mut Tasks) -> (r:
    Result<(), ChunkError>)
    ensures
        r is Ok <==> inlines_supported_upto(inlines_view(inlines@), inlines@.len()),
        r is Err ==> r == Err::<(), ChunkError>(ChunkError::Unsupported),
        r is Ok ==> texts(final(fragments)@) == texts(old(fragments)@) + leaves(
            inlines_view(inlines@),
        ),
        r is Ok ==> final(tasks)@ == old(tasks)@.concat(
            TasksView {
                main: Seq::empty(),
                sides: note_chunks_upto(inlines_view(inlines@), inlines@.len()),
            },
        ),
    decreases inlines, 1nat,
{
    let ghost model = inlines_view(inlines@);
    let mut i: usize = 0;
    assert(tasks@.sides =~= old(tasks)@.sides + note_chunks_upto(model, 0));
    assert(texts(fragments@) =~= texts(old(fragments)@) + leaves_upto(model, 0));
    while i < inlines.len()
        invariant
            i <= inlines.len(),
            model == inlines_view(inlines@),
            inlines_supported_upto(model, i as nat),
            texts(fragments@) == texts(old(fragments)@) + leaves_upto(model, i as nat),
            tasks@.main == old(tasks)@.main,
            tasks@.sides == old(tasks)@.sides + note_chunks_upto(model, i as nat),
        decreases inlines.len() - i,
    {
        let ghost before = texts(fragments@);
        let ghost sides = tasks@.sides;
        assert(model[i as int] == inline_view(inlines@[i as int]));
        match &inlines[i] {
            Inline::Text(_, text) => {
                fragments.push(text.clone());
                assert(texts(fragments@) =~= before + seq![text@]);
            },
            Inline::Inert(_) => {},
            Inline::Container(_, children) => {
                assert(inlines_view(children@).len() == children@.len());
                if flatten_inlines(children, fragments, tasks).is_err() {
                    proof {
                        assert(!inline_supported(model[i as int]));
                        lemma_inlines_unsupported_at(model, i as int);
                    }
                    return Err(ChunkError::Unsupported);
                }
            },
            Inline::Note(blocks) => {
                assert(blocks_view(blocks@).len() == blocks@.len());
                if collect_ins(blocks, tasks, TaskType::Side).is_err() {
                    proof {
                        assert(!inline_supported(model[i as int]));
                        lemma_inlines_unsupported_at(model, i as int);
                    }
                    return Err(ChunkError::Unsupported);
                }
                proof {
                    lemma_side_chunks(blocks_view(blocks@), blocks@.len() as nat);
                }
            },
            Inline::Cite => {
                proof {
                    assert(!inline_supported(model[i as int]));
                    lemma_inlines_unsupported_at(model, i as int);
                }
                return Err(ChunkError::Unsupported);
            },
        }
        proof {
            assert(inline_supported(model[i as int]));
            assert(texts(fragments@) =~= before + inline_leaves(model[i as int]));
            assert(tasks@.main =~= old(tasks)@.main);
            assert(tasks@.sides =~= sides + inline_note_chunks(model[i as int]));
            assert(texts(fragments@) =~= texts(old(fragments)@) + leaves_upto(
                model,
                (i + 1) as nat,
            ));
            assert(tasks@.sides =~= old(tasks)@.sides + note_chunks_upto(model, (i + 1) as nat));
        }
        i = i + 1;
    }
    assert(final(tasks)@ =~= old(tasks)@.concat(
        TasksView { main: Seq::empty(), sides: note_chunks_upto(model, inlines@.len()) },
    ));
    Ok(())
}

/// Appends the chunks of `blocks`, walked in the context `task_type`, to
/// `tasks`.
pub fn collect_ins(blocks: &Vec<Block>, tasks: &mut Tasks, task_type: TaskType) -> (r: Result<
    (),
    ChunkError,
>)
    ensures
        r is Ok <==> supported(blocks_view(blocks@)),
        r is Err ==> r == Err::<(), ChunkError>(ChunkError::Unsupported),
        r is Ok ==> final(tasks)@ == old(tasks)@.concat(
            chunks_upto(blocks_view(blocks@), blocks@.len(), task_type),
        ),
    decreases blocks, 0nat,
{
    let ghost model = blocks_view(blocks@);
    let mut i: usize = 0;
    assert(tasks@ =~= old(tasks)@.concat(chunks_upto(model, 0, task_type)));
    while i < blocks.len()
        invariant
            i <= blocks.len(),
            model == blocks_view(blocks@),
            blocks_supported_upto(model, i as nat),
            tasks@ == old(tasks)@.concat(chunks_upto(model, i as nat, task_type)),
        decreases blocks.len() - i,
    {
        let ghost before = tasks@;
        assert(model[i as int] == block_view(blocks@[i as int]));
        match &blocks[i] {
            Block::Text(_, inlines) => {
                assert(inlines_view(inlines@).len() == inlines@.len());
                let mut fragments: Vec<String> = Vec::new();
                if flatten_inlines(inlines, &mut fragments, tasks).is_err() {
                    proof {
                        assert(!block_supported(model[i as int]));
                        lemma_blocks_unsupported_at(model, i as int);
                    }
                    return Err(ChunkError::Unsupported);
                }
                assert(texts(fragments@) =~= leaves(inlines_view(inlines@)));
                let chunk = join(&fragments);
                tasks.add(chunk, task_type);
            },
            Block::Nest(_, inner) => {
                assert(blocks_view(inner@).len() == inner@.len());
                if collect_ins(inner, tasks, task_type).is_err() {
                    proof {
                        assert(!block_supported(model[i as int]));
                        lemma_blocks_unsupported_at(model, i as int);
                    }
                    return Err(ChunkError::Unsupported);
                }
            },
            Block::Inert(_) => {},
            Block::Unsupported(_) => {
                proof {
                    assert(!block_supported(model[i as int]));
                    lemma_blocks_unsupported_at(model, i as int);
                }
                return Err(ChunkError::Unsupported);
            },
        }
        proof {
            assert(block_supported(model[i as int]));
            assert(tasks@ =~= before.concat(block_chunks(model[i as int], task_type)));
            assert(tasks@ =~= old(tasks)@.concat(chunks_upto(model, (i + 1) as nat, task_type)));
        }
        i = i + 1;
    }
    Ok(())
}

/// `inline` is plain text.
fn is_plain_text(inline: &Inline) -> (plain: bool)
    ensures
        plain == is_plain(inline@),
{
    match inline {
        Inline::Text(TextKind::Str, _) => true,
        _ => false,
    }
}

/// Normalizes one inline.
fn clean_space_inline(inline: Inline) -> (cleaned: Inline)
    ensures
        cleaned@ == inline_normalized(inline@),
    decreases inline, 0nat,
{
    match inline {
        Inline::Inert(InertInline::Space) => {
            let mut space = String::new();
            space.push(' ');
            assert(space@ =~= seq![' ']);
            Inline::Text(TextKind::Str, space)
        },
        Inline::Container(kind, children) => {
            let mut children = children;
            clean_space_inlines(&mut children);
            Inline::Container(kind, children)
        },
        Inline::Note(blocks) => {
            let mut blocks = blocks;
            clean_space_blocks(&mut blocks);
            Inline::Note(blocks)
        },
        other => other,
    }
}

/// Normalizes a run of inlines in place.
fn clean_space_inlines(inlines: &mut Vec<Inline>)
    ensures
        inlines_view(final(inlines)@) == inlines_normalized(inlines_view(old(inlines)@)),
    decreases *old(inlines), 1nat,
{
    let ghost model = inlines_view(inlines@);
    let mut taken: Vec<Inline> = Vec::new();
    std::mem::swap(inlines, &mut taken);
    let mut done: Vec<Inline> = Vec::new();
    for inline in it: taken
        invariant
            it.seq() == old(inlines)@,
            model == inlines_view(old(inlines)@),
            inlines_view(done@) == inlines_normalized_upto(model, it.index() as nat),
    {
        let cleaned = clean_space_inline(inline);
        let n = done.len();
        if n > 0 && is_plain_text(&cleaned) && is_plain_text(&done[n - 1]) {
            match cleaned {
                Inline::Text(_, tail) => {
                    match &mut done[n - 1] {
                        Inline::Text(_, head) => {
                            head.append(tail.as_str());
                        },
                        _ => {},
                    }
                },
                _ => {},
            }
        } else {
            done.push(cleaned);
        }
    }
    *inlines = done;
}

/// Normalizes a run of blocks in place.
fn clean_space_blocks(blocks: &mut Vec<Block>)
    ensures
        blocks_view(final(blocks)@) == blocks_normalized(blocks_view(old(blocks)@)),
    decreases *old(blocks), 0nat,
{
    let ghost model = blocks_view(blocks@);
    let mut i: usize = 0;
    while i < blocks.len()
        invariant
            i <= blocks.len(),
            blocks@.len() == old(blocks)@.len(),
            model == blocks_view(old(blocks)@),
            forall|j: int| 0 <= j < i ==> block_view(#[trigger] blocks@[j]) == block_normalized(model[j]),
            forall|j: int| i <= j < blocks@.len() ==> blocks@[j] == old(blocks)@[j],
        decreases blocks.len() - i,
    {
        match &mut blocks[i] {
            Block::Text(_, inlines) => {
                clean_space_inlines(inlines);
            },
            Block::Nest(_, inner) => {
                clean_space_blocks(inner);
            },
            _ => {},
        }
        i = i + 1;
    }
    assert(blocks_view(blocks@) =~= blocks_normalized(model));
}

/// Normalizes `blocks` in place: every layout space becomes a
/// one-character plain text, and every run of neighbouring plain texts
/// becomes one plain text, in the blocks, in what they contain and in the
/// footnotes. A document that holds an unsupported element is not
/// normalized: [`is_supported`] tells.
pub fn clean_space(blocks: &mut Vec<Block>)
    requires
        supported(blocks_view(old(blocks)@)),
    ensures
        blocks_view(final(blocks)@) == blocks_normalized(blocks_view(old(blocks)@)),
        supported(blocks_view(final(blocks)@)),
{
    proof {
        law_normalized_supported(blocks_view(blocks@));
    }
    clean_space_blocks(blocks);
}

/// Tells whether no unsupported element occurs in `inlines`.
fn inlines_are_supported(inlines: &Vec<Inline>) -> (b: bool)
    ensures
        b == inlines_supported_upto(inlines_view(inlines@), inlines@.len()),
    decreases inlines, 1nat,
{
    let ghost model = inlines_view(inlines@);
    let mut i: usize = 0;
    while i < inlines.len()
        invariant
            i <= inlines.len(),
            model == inlines_view(inlines@),
            inlines_supported_upto(model, i as nat),
        decreases inlines.len() - i,
    {
        assert(model[i as int] == inline_view(inlines@[i as int]));
        let fine = match &inlines[i] {
            Inline::Container(_, children) => {
                assert(inlines_view(children@).len() == children@.len());
                inlines_are_supported(children)
            },
            Inline::Note(blocks) => {
                assert(blocks_view(blocks@).len() == blocks@.len());
                is_supported(blocks)
            },
            Inline::Cite => false,
            _ => true,
        };
        assert(fine == inline_supported(model[i as int]));
        if !fine {
            proof {
                lemma_inlines_unsupported_at(model, i as int);
            }
            return false;
        }
        i = i + 1;
    }
    true
}

/// Tells whether no unsupported element occurs anywhere in `blocks`:
/// whether the document can be normalized, extracted and rewritten.
pub fn is_supported(blocks: &Vec<Block>) -> (b: bool)
    ensures
        b == supported(blocks_view(blocks@)),
    decreases blocks, 0nat,
{
    let ghost model = blocks_view(blocks@);
    let mut i: usize = 0;
    while i < blocks.len()
        invariant
            i <= blocks.len(),
            model == blocks_view(blocks@),
            blocks_supported_upto(model, i as nat),
        decreases blocks.len() - i,
    {
        assert(model[i as int] == block_view(blocks@[i as int]));
        let fine = match &blocks[i] {
            Block::Text(_, inlines) => {
                assert(inlines_view(inlines@).len() == inlines@.len());
                inlines_are_supported(inlines)
            },
            Block::Nest(_, inner) => {
                assert(blocks_view(inner@).len() == inner@.len());
                is_supported(inner)
            },
            Block::Inert(_) => true,
            Block::Unsupported(_) => false,
        };
        assert(fine == block_supported(model[i as int]));
        if !fine {
            proof {
                lemma_blocks_unsupported_at(model, i as int);
            }
            return false;
        }
        i = i + 1;
    }
    true
}

/// Hands the fragments from `fragments[at]` on to the text leaves of
/// `inlines`, left to right. Gives the index of the first fragment that is
/// left, or `None` where the fragments run out.
pub(crate) fn fill_inlines(inlines: &mut Vec<Inline>, fragments: &Vec<String>, at: usize) -> (next: Option<
    usize,
>)
    requires
        at <= fragments@.len(),
    ensures
        next is Some <==> at + leaves(inlines_view(old(inlines)@)).len() <= fragments@.len(),
        next matches Some(next) ==> {
            &&& next == at + leaves(inlines_view(old(inlines)@)).len()
            &&& inlines_view(final(inlines)@) == filled_from(
                inlines_view(old(inlines)@),
                texts(fragments@),
                at as int,
            )
        },
    decreases *old(inlines),
{
    let ghost model = inlines_view(inlines@);
    let ghost given = texts(fragments@);
    let mut cursor: usize = at;
    let mut i: usize = 0;
    while i < inlines.len()
        invariant
            i <= inlines.len(),
            inlines@.len() == old(inlines)@.len(),
            model == inlines_view(old(inlines)@),
            given == texts(fragments@),
            cursor == at + leaves_upto(model, i as nat).len(),
            cursor <= fragments@.len(),
            forall|j: int|
                0 <= j < i ==> inline_view(#[trigger] inlines@[j]) == inline_filled(
                    model[j],
                    given,
                    at + leaves_upto(model, j as nat).len(),
                ),
            forall|j: int| i <= j < inlines@.len() ==> inlines@[j] == old(inlines)@[j],
        decreases inlines.len() - i,
    {
        assert(model[i as int] == inline_view(old(inlines)@[i as int]));
        match &mut inlines[i] {
            Inline::Text(_, text) => {
                if cursor >= fragments.len() {
                    proof {
                        assert(inline_leaves(model[i as int]).len() == 1);
                        assert(leaves_upto(model, (i + 1) as nat).len() == cursor - at + 1);
                        lemma_leaves_grow(model, (i + 1) as nat, model.len());
                    }
                    return None;
                }
                *text = fragments[cursor].clone();
                cursor = cursor + 1;
            },
            Inline::Container(_, children) => {
                assert(inlines_view(children@).len() == children@.len());
                match fill_inlines(children, fragments, cursor) {
                    Some(next) => {
                        cursor = next;
                    },
                    None => {
                        proof {
                            assert(inline_leaves(model[i as int]).len() > fragments@.len()
                                - cursor);
                            assert(leaves_upto(model, (i + 1) as nat).len() > fragments@.len()
                                - at);
                            lemma_leaves_grow(model, (i + 1) as nat, model.len());
                        }
                        return None;
                    },
                }
            },
            _ => {},
        }
        i = i + 1;
    }
    assert(inlines_view(inlines@) =~= filled_from(model, given, at as int));
    Some(cursor)
}

/// How many chunks wait in the queue that `task_type` names.
fn waiting(tasks: &Tasks, task_type: TaskType) -> (n: usize)
    ensures
        n == tasks@.queue(task_type).len(),
{
    match task_type {
        TaskType::Main => tasks.main.len(),
        TaskType::Side => tasks.sides.len(),
    }
}

/// Reinserts into the footnotes below `inlines`, left to right.
fn reinsert_notes(inlines: &mut Vec<Inline>, mipcs: &mut Tasks) -> (r: Result<(), ChunkError>)
    ensures
        match notes_reinserted_upto(
            inlines_view(old(inlines)@),
            old(inlines)@.len(),
            old(mipcs)@,
        ) {
            Ok((done, left)) => r is Ok && inlines_view(final(inlines)@) == done && final(mipcs)@
                == left,
            Err(e) => r == Err::<(), ChunkError>(e),
        },
    decreases *old(inlines), 1nat,
{
    let ghost model = inlines_view(inlines@);
    let ghost start = mipcs@;
    let mut i: usize = 0;
    assert(inlines_view(inlines@).take(0) =~= Seq::empty());
    while i < inlines.len()
        invariant
            i <= inlines.len(),
            inlines@.len() == old(inlines)@.len(),
            model == inlines_view(old(inlines)@),
            start == old(mipcs)@,
            notes_reinserted_upto(model, i as nat, start) == Ok::<
                (Seq<InlineView>, TasksView),
                ChunkError,
            >((inlines_view(inlines@).take(i as int), mipcs@)),
            forall|j: int| i <= j < inlines@.len() ==> inlines@[j] == old(inlines)@[j],
        decreases inlines.len() - i,
    {
        let ghost before = inlines_view(inlines@);
        let ghost queues = mipcs@;
        assert(model[i as int] == inline_view(old(inlines)@[i as int]));
        match &mut inlines[i] {
            Inline::Container(_, children) => {
                assert(inlines_view(children@).len() == children@.len());
                match reinsert_notes(children, mipcs) {
                    Ok(()) => {},
                    Err(e) => {
                        proof {
                            assert(inline_notes_reinserted(model[i as int], queues) == Err::<
                                (InlineView, TasksView),
                                ChunkError,
                            >(e));
                            lemma_notes_reinserted_fails(
                                model,
                                (i + 1) as nat,
                                model.len(),
                                start,
                            );
                        }
                        return Err(e);
                    },
                }
            },
            Inline::Note(blocks) => {
                assert(blocks_view(blocks@).len() == blocks@.len());
                match apply_mipc_to_blocks(blocks, mipcs, TaskType::Side) {
                    Ok(()) => {},
                    Err(e) => {
                        proof {
                            assert(inline_notes_reinserted(model[i as int], queues) == Err::<
                                (InlineView, TasksView),
                                ChunkError,
                            >(e));
                            lemma_notes_reinserted_fails(
                                model,
                                (i + 1) as nat,
                                model.len(),
                                start,
                            );
                        }
                        return Err(e);
                    },
                }
            },
            Inline::Cite => {
                proof {
                    assert(inline_notes_reinserted(model[i as int], queues) == Err::<
                        (InlineView, TasksView),
                        ChunkError,
                    >(ChunkError::Unsupported));
                    lemma_notes_reinserted_fails(model, (i + 1) as nat, model.len(), start);
                }
                return Err(ChunkError::Unsupported);
            },
            _ => {},
        }
        proof {
            let after = inlines_view(inlines@);
            assert(inline_notes_reinserted(model[i as int], queues) == Ok::<
                (InlineView, TasksView),
                ChunkError,
            >((after[i as int], mipcs@)));
            assert(after.take(i + 1) =~= before.take(i as int).push(after[i as int]));
        }
        i = i + 1;
    }
    assert(inlines_view(inlines@).take(inlines@.len() as int) =~= inlines_view(inlines@));
    Ok(())
}

/// Reinserts the chunks of `mipcs` into `blocks`, which stand in the
/// context `task_type`, and takes each chunk used off its queue.
///
/// The walk is that of [`collect_ins`]: the block that gave the i-th chunk of
/// a queue takes the i-th chunk of that queue. After an error the blocks are
/// left partly rewritten.
pub fn apply_mipc_to_blocks(blocks: &mut Vec<Block>, mipcs: &mut Tasks, task_type: TaskType) -> (r:
    Result<(), ChunkError>)
    ensures
        match reinserted_upto(
            blocks_view(old(blocks)@),
            old(blocks)@.len(),
            task_type,
            old(mipcs)@,
        ) {
            Ok((done, left)) => r is Ok && blocks_view(final(blocks)@) == done && final(mipcs)@
                == left,
            Err(e) => r == Err::<(), ChunkError>(e),
        },
    decreases *old(blocks), 0nat,
{
    let ghost model = blocks_view(blocks@);
    let ghost start = mipcs@;
    let mut i: usize = 0;
    assert(blocks_view(blocks@).take(0) =~= Seq::empty());
    while i < blocks.len()
        invariant
            i <= blocks.len(),
            blocks@.len() == old(blocks)@.len(),
            model == blocks_view(old(blocks)@),
            start == old(mipcs)@,
            reinserted_upto(model, i as nat, task_type, start) == Ok::<
                (Seq<BlockView>, TasksView),
                ChunkError,
            >((blocks_view(blocks@).take(i as int), mipcs@)),
            forall|j: int| i <= j < blocks@.len() ==> blocks@[j] == old(blocks)@[j],
        decreases blocks.len() - i,
    {
        let ghost before = blocks_view(blocks@);
        let ghost queues = mipcs@;
        assert(model[i as int] == block_view(old(blocks)@[i as int]));
        match &mut blocks[i] {
            Block::Text(_, inlines) => {
                assert(inlines_view(inlines@).len() == inlines@.len());
                let mut failure: Option<ChunkError> = None;
                match reinsert_notes(inlines, mipcs) {
                    Err(e) => {
                        failure = Some(e);
                    },
                    Ok(()) => {
                        if waiting(mipcs, task_type) == 0 {
                            failure = Some(ChunkError::Exhausted);
                        } else {
                            let chunk = mipcs.collect(task_type);
                            let fragments = split(chunk.as_str());
                            proof {
                                lemma_fragment_count(chunk@);
                            }
                            match fill_inlines(inlines, &fragments, 0) {
                                None => {
                                    failure = Some(ChunkError::Mismatch);
                                },
                                Some(next) => {
                                    if !(next == fragments.len() || (next == 0
                                        && chunk.as_str().is_empty())) {
                                        failure = Some(ChunkError::Mismatch);
                                    }
                                },
                            }
                        }
                    },
                }
                if let Some(e) = failure {
                    proof {
                        assert(block_reinserted(model[i as int], task_type, queues) == Err::<
                            (BlockView, TasksView),
                            ChunkError,
                        >(e));
                        lemma_reinserted_fails(
                            model,
                            (i + 1) as nat,
                            model.len(),
                            task_type,
                            start,
                        );
                    }
                    return Err(e);
                }
            },
            Block::Nest(_, inner) => {
                assert(blocks_view(inner@).len() == inner@.len());
                match apply_mipc_to_blocks(inner, mipcs, task_type) {
                    Ok(()) => {},
                    Err(e) => {
                        proof {
                            assert(block_reinserted(model[i as int], task_type, queues) == Err::<
                                (BlockView, TasksView),
                                ChunkError,
                            >(e));
                            lemma_reinserted_fails(
                                model,
                                (i + 1) as nat,
                                model.len(),
                                task_type,
                                start,
                            );
                        }
                        return Err(e);
                    },
                }
            },
            Block::Inert(_) => {},
            Block::Unsupported(_) => {
                proof {
                    assert(block_reinserted(model[i as int], task_type, queues) == Err::<
                        (BlockView, TasksView),
                        ChunkError,
                    >(ChunkError::Unsupported));
                    lemma_reinserted_fails(model, (i + 1) as nat, model.len(), task_type, start);
                }
                return Err(ChunkError::Unsupported);
            },
        }
        proof {
            let after = blocks_view(blocks@);
            assert(block_reinserted(model[i as int], task_type, queues) == Ok::<
                (BlockView, TasksView),
                ChunkError,
            >((after[i as int], mipcs@)));
            assert(after.take(i + 1) =~= before.take(i as int).push(after[i as int]));
        }
        i = i + 1;
    }
    assert(blocks_view(blocks@).take(blocks@.len() as int) =~= blocks_view(blocks@));
    Ok(())
}

/// A document in the interchange tree of the document converter.
pub struct PandocAST {
    ast: Vec<Block>,
}

impl View for PandocAST {
    type V = Seq<BlockView>;

    closed spec fn view(&self) -> Seq<BlockView> {
        blocks_view(self.ast@)
    }
}

impl Clone for PandocAST {
    /// A copy of the document.
    fn clone(&self) -> (copy: Self)
        ensures
            copy@ == self@,
    {
        PandocAST { ast: blocks_cloned(&self.ast) }
    }
}

impl Default for PandocAST {
    /// The empty document.
    fn default() -> (document: Self)
        ensures
            document@ == Seq::<BlockView>::empty(),
    {
        let document = PandocAST { ast: Vec::new() };
        assert(document@ =~= Seq::<BlockView>::empty());
        document
    }
}

impl PandocAST {
    /// Takes in the blocks that the converter parsed, and normalizes them.
    /// A document that holds an unsupported element is not taken in:
    /// [`is_supported`] tells.
    pub fn import(&mut self, blocks: Vec<Block>)
        requires
            supported(blocks_view(blocks@)),
        ensures
            final(self)@ == blocks_normalized(blocks_view(blocks@)),
            supported(final(self)@),
    {
        self.ast = blocks;
        clean_space(&mut self.ast);
    }

    /// The blocks of the document, for the converter to write out.
    pub fn export(&self) -> (blocks: &Vec<Block>)
        ensures
            blocks_view(blocks@) == self@,
    {
        &self.ast
    }
}

impl AST for PandocAST {
    open spec fn mipcs(&self) -> Result<TasksView, ChunkError> {
        if supported(self@) {
            Ok(extracted(self@))
        } else {
            Err(ChunkError::Unsupported)
        }
    }

    open spec fn applied(&self, mipcs: TasksView) -> Result<Seq<BlockView>, ChunkError> {
        match reinserted(self@, mipcs) {
            Ok((document, _)) => Ok(document),
            Err(e) => Err(e),
        }
    }

    /// The chunks of the body go to the main queue, those of the
    /// footnotes to the side queue. A document that holds an unsupported
    /// element gives none.
    fn to_mipcs(&self) -> (r: Result<Tasks, ChunkError>) {
        let mut tasks = Tasks::new();
        match collect_ins(&self.ast, &mut tasks, TaskType::Main) {
            Ok(()) => {
                assert(tasks@ =~= extracted(self@));
                Ok(tasks)
            },
            Err(e) => Err(e),
        }
    }

    /// Each translatable block takes the chunk at the position at which
    /// it gave one. After an error the document is left partly rewritten.
    fn apply_mipcs(&mut self, mipcs: Tasks) -> (r: Result<(), ChunkError>) {
        let mut mipcs = mipcs;
        apply_mipc_to_blocks(&mut self.ast, &mut mipcs, TaskType::Main)
    }
}

} // verus!
