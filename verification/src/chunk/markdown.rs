//! The plain protocol: one queue for the whole document. Footnotes are
//! passed over: they give no chunks and take none.
use vstd::prelude::*;
use crate::chunk::ChunkError;
use crate::chunk::fragment::{fragments_of, join, joined, lemma_fragment_count, split, texts};
use crate::chunk::pandoc_ast::fill_inlines;
use crate::chunk::tree::{
    Block, BlockView, Inline, InlineView, block_view, blocks_view, inline_view, inlines_view,
};
use crate::chunk::walk::{filled, fits, inline_leaves, leaves, leaves_upto};

verus! {

/// No citation stands at `inline` or below it, footnotes apart.
pub open spec fn inline_plain(inline: InlineView) -> bool
    decreases inline,
{
    match inline {
        InlineView::Container(_, children) => forall|i: int|
            0 <= i < children.len() ==> inline_plain(#[trigger] children[i]),
        InlineView::Cite => false,
        _ => true,
    }
}

/// No citation stands in `inlines`, footnotes apart.
pub open spec fn inlines_plain(inlines: Seq<InlineView>) -> bool {
    forall|i: int| 0 <= i < inlines.len() ==> inline_plain(#[trigger] inlines[i])
}

/// The plain walk can serve `block`: it meets no unsupported block and no
/// citation.
pub open spec fn block_plain(block: BlockView) -> bool
    decreases block,
{
    match block {
        BlockView::Text(_, inlines) => inlines_plain(inlines),
        BlockView::Nest(_, blocks) => forall|i: int|
            0 <= i < blocks.len() ==> block_plain(#[trigger] blocks[i]),
        BlockView::Inert(_) => true,
        BlockView::Unsupported(_) => false,
    }
}

/// The plain walk can serve every one of `blocks`.
pub open spec fn blocks_plain(blocks: Seq<BlockView>) -> bool {
    forall|i: int| 0 <= i < blocks.len() ==> block_plain(#[trigger] blocks[i])
}

/// A container is plain exactly when what it holds is.
pub proof fn lemma_container_plain(inline: InlineView)
    requires
        inline is Container,
    ensures
        inline_plain(inline) == inlines_plain(inline->Container_1),
{
    reveal_with_fuel(inline_plain, 2);
}

/// A block that groups blocks is plain exactly when they all are.
pub proof fn lemma_nest_plain(block: BlockView)
    requires
        block is Nest,
    ensures
        block_plain(block) == blocks_plain(block->Nest_1),
{
    reveal_with_fuel(block_plain, 2);
}

/// The chunks of `block`: its own where it is translatable, those of its
/// blocks where it is a container.
pub open spec fn block_mipcs(block: BlockView) -> Seq<Seq<char>>
    decreases block, 0nat,
{
    match block {
        BlockView::Text(_, inlines) => seq![joined(leaves(inlines))],
        BlockView::Nest(_, blocks) => mipcs_upto(blocks, blocks.len()),
        _ => Seq::empty(),
    }
}

/// The chunks of the first `n` of `blocks`, in order.
pub open spec fn mipcs_upto(blocks: Seq<BlockView>, n: nat) -> Seq<Seq<char>>
    decreases blocks, n,
{
    if n == 0 || n > blocks.len() {
        Seq::empty()
    } else {
        mipcs_upto(blocks, (n - 1) as nat) + block_mipcs(blocks[n - 1])
    }
}

/// `inlines` after the chunk `mipc` was written into them, or why it was
/// not.
pub open spec fn inlines_applied(inlines: Seq<InlineView>, mipc: Seq<char>) -> Result<
    Seq<InlineView>,
    ChunkError,
> {
    if !inlines_plain(inlines) {
        Err(ChunkError::Unsupported)
    } else if !fits(mipc, leaves(inlines).len()) {
        Err(ChunkError::Mismatch)
    } else {
        Ok(filled(inlines, fragments_of(mipc)))
    }
}

/// `block` after it took its chunks from `mipcs[at]` on: the new block and
/// the position of the first chunk that is left, or the first error met.
pub open spec fn block_applied(block: BlockView, mipcs: Seq<Seq<char>>, at: int) -> Result<
    (BlockView, int),
    ChunkError,
>
    decreases block, 0nat,
{
    match block {
        BlockView::Text(kind, inlines) => if at >= mipcs.len() {
            Err(ChunkError::Exhausted)
        } else {
            match inlines_applied(inlines, mipcs[at]) {
                Ok(inlines) => Ok((BlockView::Text(kind, inlines), at + 1)),
                Err(e) => Err(e),
            }
        },
        BlockView::Nest(kind, blocks) => match applied_upto(blocks, blocks.len(), mipcs, at) {
            Ok((blocks, at)) => Ok((BlockView::Nest(kind, blocks), at)),
            Err(e) => Err(e),
        },
        BlockView::Inert(_) => Ok((block, at)),
        BlockView::Unsupported(_) => Err(ChunkError::Unsupported),
    }
}

/// The first `n` of `blocks` after they took their chunks from `mipcs[at]`
/// on.
pub open spec fn applied_upto(blocks: Seq<BlockView>, n: nat, mipcs: Seq<Seq<char>>, at: int) -> Result<
    (Seq<BlockView>, int),
    ChunkError,
>
    decreases blocks, n,
{
    if n == 0 || n > blocks.len() {
        Ok((Seq::empty(), at))
    } else {
        match applied_upto(blocks, (n - 1) as nat, mipcs, at) {
            Ok((done, at)) => match block_applied(blocks[n - 1], mipcs, at) {
                Ok((block, at)) => Ok((done.push(block), at)),
                Err(e) => Err(e),
            },
            Err(e) => Err(e),
        }
    }
}

/// An error met in a prefix is the error of the whole run.
proof fn lemma_applied_fails(blocks: Seq<BlockView>, m: nat, n: nat, mipcs: Seq<Seq<char>>, at: int)
    requires
        m <= n <= blocks.len(),
        applied_upto(blocks, m, mipcs, at) is Err,
    ensures
        applied_upto(blocks, n, mipcs, at) == applied_upto(blocks, m, mipcs, at),
    decreases n,
{
    if m < n {
        lemma_applied_fails(blocks, m, (n - 1) as nat, mipcs, at);
    }
}

/// Collects the leaf texts of `inlines` at the end of `fragments`. Tells
/// whether it met no citation.
fn plain_leaves(inlines: &Vec<Inline>, fragments: &mut Vec<String>) -> (plain: bool)
    ensures
        plain == inlines_plain(inlines_view(inlines@)),
        plain ==> texts(final(fragments)@) == texts(old(fragments)@) + leaves(
            inlines_view(inlines@),
        ),
    decreases inlines,
{
    let ghost model = inlines_view(inlines@);
    let mut i: usize = 0;
    assert(texts(fragments@) =~= texts(old(fragments)@) + leaves_upto(model, 0));
    while i < inlines.len()
        invariant
            i <= inlines.len(),
            model == inlines_view(inlines@),
            forall|j: int| 0 <= j < i ==> inline_plain(#[trigger] model[j]),
            texts(fragments@) == texts(old(fragments)@) + leaves_upto(model, i as nat),
        decreases inlines.len() - i,
    {
        let ghost before = texts(fragments@);
        assert(model[i as int] == inline_view(inlines@[i as int]));
        match &inlines[i] {
            Inline::Text(_, text) => {
                fragments.push(text.clone());
                assert(texts(fragments@) =~= before + seq![text@]);
            },
            Inline::Container(_, children) => {
                assert(inlines_view(children@).len() == children@.len());
                proof {
                    lemma_container_plain(model[i as int]);
                }
                if !plain_leaves(children, fragments) {
                    return false;
                }
            },
            Inline::Cite => {
                assert(!inline_plain(model[i as int]));
                return false;
            },
            _ => {},
        }
        proof {
            assert(inline_plain(model[i as int]));
            assert(texts(fragments@) =~= before + inline_leaves(model[i as int]));
            assert(texts(fragments@) =~= texts(old(fragments)@) + leaves_upto(
                model,
                (i + 1) as nat,
            ));
        }
        i = i + 1;
    }
    true
}

/// The chunk of a run of inlines: its leaf texts, joined.
pub fn inlines_to_mipc(inlines: &Vec<Inline>) -> (r: Result<String, ChunkError>)
    ensures
        if inlines_plain(inlines_view(inlines@)) {
            r is Ok && r->Ok_0@ == joined(leaves(inlines_view(inlines@)))
        } else {
            r == Err::<String, ChunkError>(ChunkError::Unsupported)
        },
{
    let mut fragments: Vec<String> = Vec::new();
    if !plain_leaves(inlines, &mut fragments) {
        return Err(ChunkError::Unsupported);
    }
    assert(texts(fragments@) =~= leaves(inlines_view(inlines@)));
    Ok(join(&fragments))
}

/// Writes the fragments of `mipc` into the text leaves of `ins_src`, one
/// each, left to right. After an error the inlines are left partly
/// rewritten.
pub fn mipc_to_inlines(ins_src: &mut Vec<Inline>, mipc: String) -> (r: Result<(), ChunkError>)
    ensures
        match inlines_applied(inlines_view(old(ins_src)@), mipc@) {
            Ok(done) => r is Ok && inlines_view(final(ins_src)@) == done,
            Err(e) => r == Err::<(), ChunkError>(e),
        },
{
    let mut unused: Vec<String> = Vec::new();
    if !plain_leaves(ins_src, &mut unused) {
        return Err(ChunkError::Unsupported);
    }
    let fragments = split(mipc.as_str());
    proof {
        lemma_fragment_count(mipc@);
    }
    match fill_inlines(ins_src, &fragments, 0) {
        None => Err(ChunkError::Mismatch),
        Some(next) => {
            if next == fragments.len() || (next == 0 && mipc.as_str().is_empty()) {
                Ok(())
            } else {
                Err(ChunkError::Mismatch)
            }
        },
    }
}

/// Appends the chunks of `b` to `mipcs`.
pub fn collect_ins(b: &Block, mipcs: &mut Vec<String>) -> (r: Result<(), ChunkError>)
    ensures
        r is Ok <==> block_plain(b@),
        r is Err ==> r == Err::<(), ChunkError>(ChunkError::Unsupported),
        r is Ok ==> texts(final(mipcs)@) == texts(old(mipcs)@) + block_mipcs(b@),
    decreases b, 0nat,
{
    match b {
        Block::Text(_, inlines) => {
            let ghost before = texts(mipcs@);
            match inlines_to_mipc(inlines) {
                Ok(mipc) => {
                    mipcs.push(mipc);
                    assert(texts(mipcs@) =~= before + seq![mipc@]);
                    Ok(())
                },
                Err(e) => Err(e),
            }
        },
        Block::Nest(_, blocks) => {
            proof {
                lemma_nest_plain(b@);
                assert(blocks_view(blocks@).len() == blocks@.len());
            }
            collect_all(blocks, mipcs)
        },
        Block::Inert(_) => {
            assert(texts(mipcs@) =~= texts(old(mipcs)@) + block_mipcs(b@));
            Ok(())
        },
        Block::Unsupported(_) => Err(ChunkError::Unsupported),
    }
}

/// Appends the chunks of `blocks` to `mipcs`.
fn collect_all(blocks: &Vec<Block>, mipcs: &mut Vec<String>) -> (r: Result<(), ChunkError>)
    ensures
        r is Ok <==> blocks_plain(blocks_view(blocks@)),
        r is Err ==> r == Err::<(), ChunkError>(ChunkError::Unsupported),
        r is Ok ==> texts(final(mipcs)@) == texts(old(mipcs)@) + mipcs_upto(
            blocks_view(blocks@),
            blocks@.len(),
        ),
    decreases blocks, 1nat,
{
    let ghost model = blocks_view(blocks@);
    let mut i: usize = 0;
    assert(texts(mipcs@) =~= texts(old(mipcs)@) + mipcs_upto(model, 0));
    while i < blocks.len()
        invariant
            i <= blocks.len(),
            model == blocks_view(blocks@),
            forall|j: int| 0 <= j < i ==> block_plain(#[trigger] model[j]),
            texts(mipcs@) == texts(old(mipcs)@) + mipcs_upto(model, i as nat),
        decreases blocks.len() - i,
    {
        assert(model[i as int] == block_view(blocks@[i as int]));
        if collect_ins(&blocks[i], mipcs).is_err() {
            assert(!block_plain(model[i as int]));
            return Err(ChunkError::Unsupported);
        }
        assert(texts(mipcs@) =~= texts(old(mipcs)@) + mipcs_upto(model, (i + 1) as nat));
        i = i + 1;
    }
    Ok(())
}

/// Hands `b_ref` its chunks, from `mipcs[at]` on. Gives the position of
/// the first chunk that is left.
pub fn apply_mipc_to_block(b_ref: &mut Block, mipcs: &Vec<String>, at: usize) -> (r: Result<
    usize,
    ChunkError,
>)
    requires
        at <= mipcs@.len(),
    ensures
        match block_applied(old(b_ref)@, texts(mipcs@), at as int) {
            Ok((done, next)) => {
                &&& r is Ok
                &&& r->Ok_0 == next
                &&& next <= mipcs@.len()
                &&& final(b_ref)@ == done
            },
            Err(e) => r == Err::<usize, ChunkError>(e),
        },
    decreases *old(b_ref), 0nat,
{
    match b_ref {
        Block::Text(_, inlines) => {
            if at >= mipcs.len() {
                return Err(ChunkError::Exhausted);
            }
            assert(texts(mipcs@)[at as int] == mipcs@[at as int]@);
            match mipc_to_inlines(inlines, mipcs[at].clone()) {
                Ok(()) => Ok(at + 1),
                Err(e) => Err(e),
            }
        },
        Block::Nest(_, blocks) => {
            assert(blocks_view(blocks@).len() == blocks@.len());
            apply_all(blocks, mipcs, at)
        },
        Block::Inert(_) => Ok(at),
        Block::Unsupported(_) => Err(ChunkError::Unsupported),
    }
}

/// Hands `blocks` their chunks, from `mipcs[at]` on.
fn apply_all(blocks: &mut Vec<Block>, mipcs: &Vec<String>, at: usize) -> (r: Result<
    usize,
    ChunkError,
>)
    requires
        at <= mipcs@.len(),
    ensures
        match applied_upto(
            blocks_view(old(blocks)@),
            old(blocks)@.len(),
            texts(mipcs@),
            at as int,
        ) {
            Ok((done, next)) => r is Ok && r->Ok_0 == next && next <= mipcs@.len()
                && blocks_view(final(blocks)@) == done,
            Err(e) => r == Err::<usize, ChunkError>(e),
        },
    decreases *old(blocks), 1nat,
{
    let ghost model = blocks_view(blocks@);
    let ghost given = texts(mipcs@);
    let mut cursor: usize = at;
    let mut i: usize = 0;
    assert(blocks_view(blocks@).take(0) =~= Seq::empty());
    while i < blocks.len()
        invariant
            i <= blocks.len(),
            blocks@.len() == old(blocks)@.len(),
            model == blocks_view(old(blocks)@),
            given == texts(mipcs@),
            cursor <= mipcs@.len(),
            applied_upto(model, i as nat, given, at as int) == Ok::<
                (Seq<BlockView>, int),
                ChunkError,
            >((blocks_view(blocks@).take(i as int), cursor as int)),
            forall|j: int| i <= j < blocks@.len() ==> blocks@[j] == old(blocks)@[j],
        decreases blocks.len() - i,
    {
        let ghost before = blocks_view(blocks@);
        assert(model[i as int] == block_view(old(blocks)@[i as int]));
        match apply_mipc_to_block(&mut blocks[i], mipcs, cursor) {
            Ok(next) => {
                cursor = next;
            },
            Err(e) => {
                proof {
                    lemma_applied_fails(model, (i + 1) as nat, model.len(), given, at as int);
                }
                return Err(e);
            },
        }
        proof {
            let after = blocks_view(blocks@);
            assert(after.take(i + 1) =~= before.take(i as int).push(after[i as int]));
        }
        i = i + 1;
    }
    assert(blocks_view(blocks@).take(blocks@.len() as int) =~= blocks_view(blocks@));
    Ok(cursor)
}

/// The chunks of a parsed document, in document order.
pub fn markdown_to_mipcs(blocks: &Vec<Block>) -> (r: Result<Vec<String>, ChunkError>)
    ensures
        if blocks_plain(blocks_view(blocks@)) {
            r is Ok && texts(r->Ok_0@) == mipcs_upto(blocks_view(blocks@), blocks@.len())
        } else {
            r == Err::<Vec<String>, ChunkError>(ChunkError::Unsupported)
        },
{
    let mut mipcs: Vec<String> = Vec::new();
    match collect_all(blocks, &mut mipcs) {
        Ok(()) => {
            assert(texts(mipcs@) =~= mipcs_upto(blocks_view(blocks@), blocks@.len()));
            Ok(mipcs)
        },
        Err(e) => Err(e),
    }
}

/// Writes `mipcs` into the parsed document `blocks`, the i-th chunk into
/// the i-th translatable block. After an error the blocks are left partly
/// rewritten.
pub fn mipcs_to_markdown(blocks: &mut Vec<Block>, mipcs: Vec<String>) -> (r: Result<
    (),
    ChunkError,
>)
    ensures
        match applied_upto(blocks_view(old(blocks)@), old(blocks)@.len(), texts(mipcs@), 0) {
            Ok((done, _)) => r is Ok && blocks_view(final(blocks)@) == done,
            Err(e) => r == Err::<(), ChunkError>(e),
        },
{
    match apply_all(blocks, &mipcs, 0) {
        Ok(_) => Ok(()),
        Err(e) => Err(e),
    }
}

} // verus!
