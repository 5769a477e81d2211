use tren::chunk::markdown::{
    apply_mipc_to_block, collect_ins, inlines_to_mipc, markdown_to_mipcs, mipc_to_inlines,
    mipcs_to_markdown,
};
use tren::chunk::tree::{
    Block, ContainerKind, InertBlock, InertInline, Inline, NestKind, TextBlockKind, TextKind,
    UnsupportedBlock,
};
use tren::chunk::{ChunkError, TOK_SEP};

fn text(s: &str) -> Inline {
    Inline::Text(TextKind::Str, s.to_string())
}

fn para(inlines: Vec<Inline>) -> Block {
    Block::Text(TextBlockKind::Para, inlines)
}

fn chunk(fragments: &[&str]) -> String {
    fragments.join(&TOK_SEP.to_string())
}

fn document(a: &str, b: &str, c: &str, note: &str) -> Vec<Block> {
    vec![
        para(vec![
            text(a),
            Inline::Inert(InertInline::Space),
            Inline::Container(ContainerKind::Strong, vec![text(b)]),
            Inline::Note(vec![para(vec![text(note)])]),
        ]),
        Block::Inert(InertBlock::Null),
        Block::Nest(NestKind::BlockQuote, vec![Block::Text(TextBlockKind::Plain, vec![text(c)])]),
    ]
}

#[test]
fn inlines_give_their_leaf_texts_joined() {
    let inlines = vec![
        text("a"),
        Inline::Container(ContainerKind::Emph, vec![text("b"), text("c")]),
        Inline::Note(vec![para(vec![text("skipped")])]),
    ];
    assert_eq!(inlines_to_mipc(&inlines), Ok(chunk(&["a", "b", "c"])));
    assert_eq!(inlines_to_mipc(&vec![]), Ok(String::new()));
    assert_eq!(
        inlines_to_mipc(&vec![Inline::Container(ContainerKind::Emph, vec![Inline::Cite])]),
        Err(ChunkError::Unsupported)
    );
}

#[test]
fn a_chunk_fills_the_leaves_from_the_left() {
    let mut inlines = vec![
        text("a"),
        Inline::Container(ContainerKind::Emph, vec![text("b")]),
        Inline::Note(vec![para(vec![text("kept")])]),
        text("c"),
    ];
    assert_eq!(mipc_to_inlines(&mut inlines, chunk(&["A", "B", "C"])), Ok(()));
    assert_eq!(
        inlines,
        vec![
            text("A"),
            Inline::Container(ContainerKind::Emph, vec![text("B")]),
            Inline::Note(vec![para(vec![text("kept")])]),
            text("C"),
        ]
    );
    assert_eq!(mipc_to_inlines(&mut inlines, chunk(&["x", "y"])), Err(ChunkError::Mismatch));
    assert_eq!(mipc_to_inlines(&mut vec![Inline::Cite], "x".to_string()), Err(ChunkError::Unsupported));
    assert_eq!(mipc_to_inlines(&mut vec![], String::new()), Ok(()));
}

#[test]
fn one_queue_holds_the_chunks_of_the_document() {
    assert_eq!(
        markdown_to_mipcs(&document("a", "b", "c", "note")),
        Ok(vec![chunk(&["a", "b"]), "c".to_string()])
    );
    assert_eq!(
        markdown_to_mipcs(&vec![para(vec![text("a")]), Block::Unsupported(UnsupportedBlock::BulletList)]),
        Err(ChunkError::Unsupported)
    );
    let mut mipcs = vec!["first".to_string()];
    assert_eq!(collect_ins(&para(vec![text("x"), text("y")]), &mut mipcs), Ok(()));
    assert_eq!(mipcs, vec!["first".to_string(), chunk(&["x", "y"])]);
}

#[test]
fn the_queue_goes_back_block_by_block() {
    let mut blocks = document("a", "b", "c", "note");
    assert_eq!(mipcs_to_markdown(&mut blocks, vec![chunk(&["A", "B"]), "C".to_string()]), Ok(()));
    assert_eq!(blocks, document("A", "B", "C", "note"));
    let mut blocks = document("a", "b", "c", "note");
    assert_eq!(mipcs_to_markdown(&mut blocks, vec![chunk(&["A", "B"])]), Err(ChunkError::Exhausted));
    let mut block = Block::Nest(NestKind::BlockQuote, vec![para(vec![text("p")]), para(vec![text("q")])]);
    let mipcs = vec!["skip".to_string(), "P".to_string(), "Q".to_string(), "rest".to_string()];
    assert_eq!(apply_mipc_to_block(&mut block, &mipcs, 1), Ok(3));
    assert_eq!(block, Block::Nest(NestKind::BlockQuote, vec![para(vec![text("P")]), para(vec![text("Q")])]));
}

#[test]
fn the_plain_round_trip_gives_the_document_back() {
    let mut blocks = document("a", "b", "c", "note");
    let mut mipcs = markdown_to_mipcs(&blocks).unwrap();
    mipcs.push("left over".to_string());
    assert_eq!(mipcs_to_markdown(&mut blocks, mipcs), Ok(()));
    assert_eq!(blocks, document("a", "b", "c", "note"));
}
