use tren::chunk::pandoc_ast::{
    apply_mipc_to_blocks, clean_space, collect_ins, is_supported, PandocAST,
};
use tren::chunk::tree::{
    Attr, Block, ContainerKind, Format, InertBlock, InertInline, Inline, MathType, NestKind,
    Target, TextBlockKind, TextKind, UnsupportedBlock,
};
use tren::chunk::{ChunkError, TaskType, Tasks, AST, TOK_SEP};

fn text(s: &str) -> Inline {
    Inline::Text(TextKind::Str, s.to_string())
}

fn space() -> Inline {
    Inline::Inert(InertInline::Space)
}

fn para(inlines: Vec<Inline>) -> Block {
    Block::Text(TextBlockKind::Para, inlines)
}

fn no_attr() -> Attr {
    Attr { identifier: String::new(), classes: vec![], attributes: vec![] }
}

fn chunk(fragments: &[&str]) -> String {
    fragments.join(&TOK_SEP.to_string())
}

fn queues(main: &[String], sides: &[String]) -> Tasks {
    Tasks::from_queues(main.to_vec(), sides.to_vec())
}

fn extract(blocks: &Vec<Block>) -> Result<(Vec<String>, Vec<String>), ChunkError> {
    let mut tasks = Tasks::from_queues(vec![], vec![]);
    collect_ins(blocks, &mut tasks, TaskType::Main)?;
    Ok(tasks.into_queues())
}

/// A paragraph with emphasis, a link, code and a footnote, in a block quote.
fn sample() -> Vec<Block> {
    vec![
        Block::Text(
            TextBlockKind::Header(1, no_attr()),
            vec![text("Title")],
        ),
        Block::Nest(
            NestKind::BlockQuote,
            vec![para(vec![
                text("Hello "),
                Inline::Container(ContainerKind::Emph, vec![text("big")]),
                Inline::Inert(InertInline::Code(no_attr(), "x = 1".to_string())),
                Inline::Note(vec![para(vec![text("a footnote")])]),
                Inline::Container(
                    ContainerKind::Link(
                        no_attr(),
                        Target { url: "http://example.org".to_string(), title: String::new() },
                    ),
                    vec![text("world")],
                ),
            ])],
        ),
        Block::Inert(InertBlock::CodeBlock(no_attr(), "fn main() {}".to_string())),
        Block::Inert(InertBlock::HorizontalRule),
    ]
}

#[test]
fn spaces_become_text_and_text_runs_merge() {
    let mut blocks = vec![para(vec![
        text("Hello"),
        space(),
        text("world"),
        Inline::Container(ContainerKind::Strong, vec![space(), text("bold"), space()]),
        text("tail"),
        Inline::Inert(InertInline::SoftBreak),
        text("next"),
    ])];
    clean_space(&mut blocks);
    assert_eq!(
        blocks,
        vec![para(vec![
            text("Hello world"),
            Inline::Container(ContainerKind::Strong, vec![text(" bold ")]),
            text("tail"),
            Inline::Inert(InertInline::SoftBreak),
            text("next"),
        ])]
    );
}

#[test]
fn normalizing_reaches_spans_quotes_and_footnotes() {
    let mut blocks = vec![Block::Nest(
        NestKind::Div(no_attr()),
        vec![Block::Text(
            TextBlockKind::Plain,
            vec![
                Inline::Container(ContainerKind::Span(no_attr()), vec![text("a"), space(), text("b")]),
                Inline::Note(vec![para(vec![text("c"), space(), text("d")])]),
            ],
        )],
    )];
    clean_space(&mut blocks);
    assert_eq!(
        blocks,
        vec![Block::Nest(
            NestKind::Div(no_attr()),
            vec![Block::Text(
                TextBlockKind::Plain,
                vec![
                    Inline::Container(ContainerKind::Span(no_attr()), vec![text("a b")]),
                    Inline::Note(vec![para(vec![text("c d")])]),
                ],
            )],
        )]
    );
}

#[test]
fn raw_text_does_not_merge() {
    let raw = || Inline::Text(TextKind::RawInline(Format("html".to_string())), "<b>".to_string());
    let mut blocks = vec![para(vec![text("a"), raw(), text("b"), text("c")])];
    clean_space(&mut blocks);
    assert_eq!(blocks, vec![para(vec![text("a"), raw(), text("bc")])]);
}

#[test]
fn normalizing_twice_changes_nothing_more() {
    let mut once = vec![para(vec![text("a"), space(), space(), text("b"), space()])];
    clean_space(&mut once);
    let mut twice = vec![para(vec![text("a"), space(), space(), text("b"), space()])];
    clean_space(&mut twice);
    clean_space(&mut twice);
    assert_eq!(once, vec![para(vec![text("a  b ")])]);
    assert_eq!(once, twice);
}

#[test]
fn a_document_is_supported_when_nothing_unsupported_is_in_it() {
    assert!(is_supported(&sample()));
    assert!(is_supported(&vec![]));
    assert!(!is_supported(&vec![para(vec![space()]), Block::Unsupported(UnsupportedBlock::Table)]));
    assert!(!is_supported(&vec![Block::Nest(
        NestKind::BlockQuote,
        vec![Block::Nest(NestKind::Div(no_attr()), vec![Block::Unsupported(UnsupportedBlock::Table)])],
    )]));
    assert!(!is_supported(&vec![para(vec![Inline::Note(vec![Block::Unsupported(
        UnsupportedBlock::Table
    )])])]));
    assert!(!is_supported(&vec![para(vec![Inline::Container(ContainerKind::Emph, vec![Inline::Cite])])]));
    let mut blocks = sample();
    clean_space(&mut blocks);
    assert!(is_supported(&blocks));
}

#[test]
fn each_translatable_block_gives_one_chunk() {
    let (main, sides) = extract(&sample()).unwrap();
    assert_eq!(main, vec!["Title".to_string(), chunk(&["Hello ", "big", "world"])]);
    assert_eq!(sides, vec!["a footnote".to_string()]);
}

#[test]
fn footnote_in_paragraph_in_block_quote_goes_to_the_side_queue() {
    let blocks = vec![Block::Nest(
        NestKind::BlockQuote,
        vec![para(vec![
            text("before"),
            Inline::Note(vec![
                para(vec![text("first note block")]),
                Block::Nest(NestKind::BlockQuote, vec![para(vec![text("quoted in note")])]),
            ]),
            text("after"),
            Inline::Note(vec![para(vec![text("second note")])]),
        ])],
    )];
    let (main, sides) = extract(&blocks).unwrap();
    assert_eq!(main, vec![chunk(&["before", "after"])]);
    assert_eq!(
        sides,
        vec![
            "first note block".to_string(),
            "quoted in note".to_string(),
            "second note".to_string()
        ]
    );
}

#[test]
fn block_without_text_gives_the_empty_chunk() {
    let blocks = vec![para(vec![Inline::Inert(InertInline::Math(
        MathType::DisplayMath,
        "x^2".to_string(),
    ))])];
    let (main, sides) = extract(&blocks).unwrap();
    assert_eq!(main, vec![String::new()]);
    assert!(sides.is_empty());
    let mut blocks = blocks;
    let mut tasks = queues(&main, &sides);
    assert_eq!(apply_mipc_to_blocks(&mut blocks, &mut tasks, TaskType::Main), Ok(()));
}

#[test]
fn table_is_refused() {
    let blocks = vec![para(vec![text("fine")]), Block::Unsupported(UnsupportedBlock::Table)];
    assert_eq!(extract(&blocks), Err(ChunkError::Unsupported));
    assert!(!is_supported(&blocks));
    let mut tasks = queues(&["x".to_string()], &[]);
    let mut blocks = blocks;
    assert_eq!(
        apply_mipc_to_blocks(&mut blocks, &mut tasks, TaskType::Main),
        Err(ChunkError::Unsupported)
    );
}

#[test]
fn citation_is_refused_wherever_it_stands() {
    let nested = vec![para(vec![Inline::Container(ContainerKind::Emph, vec![Inline::Cite])])];
    assert_eq!(extract(&nested), Err(ChunkError::Unsupported));
    let in_note = vec![para(vec![Inline::Note(vec![para(vec![Inline::Cite])])])];
    assert_eq!(extract(&in_note), Err(ChunkError::Unsupported));
    let mut blocks = in_note;
    let mut tasks = queues(&["x".to_string()], &["y".to_string()]);
    assert_eq!(
        apply_mipc_to_blocks(&mut blocks, &mut tasks, TaskType::Main),
        Err(ChunkError::Unsupported)
    );
}

#[test]
fn round_trip_without_translation_gives_the_document_back() {
    let mut document = PandocAST::default();
    document.import(sample());
    let tasks = document.to_mipcs().unwrap();
    assert_eq!(document.apply_mipcs(tasks), Ok(()));
    let mut expected = sample();
    clean_space(&mut expected);
    assert_eq!(document.export(), &expected);
}

#[test]
fn translated_fragments_land_in_the_leaves_they_came_from() {
    let mut blocks = sample();
    let mut tasks = queues(
        &["Titre".to_string(), chunk(&["Bonjour ", "grand", "monde"])],
        &["une note".to_string(), "unused".to_string()],
    );
    assert_eq!(apply_mipc_to_blocks(&mut blocks, &mut tasks, TaskType::Main), Ok(()));
    let (main, sides) = tasks.into_queues();
    assert!(main.is_empty());
    assert_eq!(sides, vec!["unused".to_string()]);
    let (main, sides) = extract(&blocks).unwrap();
    assert_eq!(main, vec!["Titre".to_string(), chunk(&["Bonjour ", "grand", "monde"])]);
    assert_eq!(sides, vec!["une note".to_string()]);
    match &blocks[1] {
        Block::Nest(_, inner) => match &inner[0] {
            Block::Text(_, inlines) => {
                assert_eq!(inlines[0], text("Bonjour "));
                assert_eq!(inlines[1], Inline::Container(ContainerKind::Emph, vec![text("grand")]));
                assert_eq!(inlines[3], Inline::Note(vec![para(vec![text("une note")])]));
            }
            other => panic!("unexpected block {:?}", other),
        },
        other => panic!("unexpected block {:?}", other),
    }
}

#[test]
fn footnote_inside_a_footnote_takes_its_own_chunk() {
    let build = |outer: &str, first: &str, inner: &str, second: &str| {
        vec![para(vec![
            text(outer),
            Inline::Note(vec![para(vec![
                text(first),
                Inline::Note(vec![para(vec![text(inner)])]),
                text(second),
            ])]),
        ])]
    };
    let mut blocks = build("body", "note start", "inner note", "note end");
    let (main, sides) = extract(&blocks).unwrap();
    assert_eq!(main, vec!["body".to_string()]);
    assert_eq!(sides, vec!["inner note".to_string(), chunk(&["note start", "note end"])]);
    let mut tasks = queues(&["BODY".to_string()], &["INNER".to_string(), chunk(&["START", "END"])]);
    assert_eq!(apply_mipc_to_blocks(&mut blocks, &mut tasks, TaskType::Main), Ok(()));
    assert_eq!(blocks, build("BODY", "START", "INNER", "END"));
}

#[test]
fn a_queue_that_runs_out_is_an_error() {
    let mut blocks = vec![para(vec![text("a")]), para(vec![text("b")])];
    let mut tasks = queues(&["A".to_string()], &[]);
    assert_eq!(
        apply_mipc_to_blocks(&mut blocks, &mut tasks, TaskType::Main),
        Err(ChunkError::Exhausted)
    );
    let mut blocks = vec![para(vec![Inline::Note(vec![para(vec![text("n")])])])];
    let mut tasks = queues(&["".to_string()], &[]);
    assert_eq!(
        apply_mipc_to_blocks(&mut blocks, &mut tasks, TaskType::Main),
        Err(ChunkError::Exhausted)
    );
}

#[test]
fn a_wrong_number_of_fragments_is_an_error() {
    let two_leaves = || vec![para(vec![text("a"), Inline::Container(ContainerKind::Strong, vec![text("b")])])];
    let mut blocks = two_leaves();
    let mut tasks = queues(&["only one".to_string()], &[]);
    assert_eq!(
        apply_mipc_to_blocks(&mut blocks, &mut tasks, TaskType::Main),
        Err(ChunkError::Mismatch)
    );
    let mut blocks = two_leaves();
    let mut tasks = queues(&[chunk(&["one", "two", "three"])], &[]);
    assert_eq!(
        apply_mipc_to_blocks(&mut blocks, &mut tasks, TaskType::Main),
        Err(ChunkError::Mismatch)
    );
    let mut blocks = vec![para(vec![Inline::Inert(InertInline::LineBreak)])];
    let mut tasks = queues(&["text for no leaf".to_string()], &[]);
    assert_eq!(
        apply_mipc_to_blocks(&mut blocks, &mut tasks, TaskType::Main),
        Err(ChunkError::Mismatch)
    );
}

#[test]
fn a_leaf_that_holds_the_separator_does_not_round_trip() {
    let mut blocks = vec![para(vec![text(&chunk(&["a", "b"]))])];
    let (main, sides) = extract(&blocks).unwrap();
    let mut tasks = queues(&main, &sides);
    assert_eq!(
        apply_mipc_to_blocks(&mut blocks, &mut tasks, TaskType::Main),
        Err(ChunkError::Mismatch)
    );
}

#[test]
fn queues_add_at_the_back_and_collect_from_the_front() {
    let mut tasks = Tasks::new();
    tasks.add("m1".to_string(), TaskType::Main);
    tasks.add("s1".to_string(), TaskType::Side);
    tasks.add("m2".to_string(), TaskType::Main);
    assert_eq!(tasks.collect(TaskType::Main), "m1");
    assert_eq!(tasks.collect(TaskType::Side), "s1");
    assert_eq!(tasks.collect(TaskType::Main), "m2");
    assert!(tasks.main.is_empty() && tasks.sides.is_empty());
}

#[test]
fn a_copy_is_equal_and_apart() {
    let original = vec![
        Block::Text(
            TextBlockKind::Header(
                2,
                Attr {
                    identifier: "intro".to_string(),
                    classes: vec!["unnumbered".to_string(), "wide".to_string()],
                    attributes: vec![("lang".to_string(), "zh".to_string())],
                },
            ),
            vec![text("Title"), Inline::Note(vec![para(vec![text("note")])])],
        ),
        Block::Inert(InertBlock::RawBlock(Format("html".to_string()), "<hr>".to_string())),
    ];
    let mut copy = original.clone();
    assert_eq!(copy, original);
    let mut tasks = queues(&["Titre".to_string()], &["remarque".to_string()]);
    assert_eq!(apply_mipc_to_blocks(&mut copy, &mut tasks, TaskType::Main), Ok(()));
    assert_ne!(copy, original);
    assert_eq!(extract(&original).unwrap().0, vec!["Title".to_string()]);

    let mut document = PandocAST::default();
    document.import(original);
    let kept = document.clone();
    assert_eq!(document.apply_mipcs(queues(&["Titre".to_string()], &["remarque".to_string()])), Ok(()));
    assert_eq!(extract(kept.export()).unwrap().0, vec!["Title".to_string()]);
    assert_eq!(extract(document.export()).unwrap().0, vec!["Titre".to_string()]);
}

#[test]
fn reinsertion_succeeds_where_every_chunk_fits_its_block() {
    let longer = |queue: &mut Vec<String>| queue.push("spare".to_string());
    let (mut main, mut sides) = extract(&sample()).unwrap();
    assert_eq!((main.len(), sides.len()), (2, 1));
    main[1] = chunk(&["", "", ""]);
    longer(&mut main);
    longer(&mut sides);
    let mut blocks = sample();
    let mut tasks = queues(&main, &sides);
    assert_eq!(apply_mipc_to_blocks(&mut blocks, &mut tasks, TaskType::Main), Ok(()));
    let (left_main, left_sides) = tasks.into_queues();
    assert_eq!(left_main, vec!["spare".to_string()]);
    assert_eq!(left_sides, vec!["spare".to_string()]);
    let (again_main, again_sides) = extract(&blocks).unwrap();
    assert_eq!(again_main, main[..2].to_vec());
    assert_eq!(again_sides, sides[..1].to_vec());

    let mut blocks = sample();
    let mut tasks = queues(&main[..1].to_vec(), &sides);
    assert_eq!(
        apply_mipc_to_blocks(&mut blocks, &mut tasks, TaskType::Main),
        Err(ChunkError::Exhausted)
    );
}
