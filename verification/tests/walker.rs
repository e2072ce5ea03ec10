use mercutio::doc::{AddElement, Attrs, CurElement, DelElement, Doc, DocElement};
use mercutio::validate::WalkerError;
use mercutio::walkers::Walker;

fn tagged(tag: &str) -> Attrs {
    let mut attrs = Attrs::new();
    attrs.insert("tag".to_string(), tag.to_string());
    attrs
}

fn group(tag: &str, children: Vec<DocElement>) -> DocElement {
    DocElement::DocGroup(tagged(tag), children)
}

fn chars(text: &str) -> DocElement {
    DocElement::DocChars(text.to_string())
}

fn two_paragraphs() -> Doc {
    Doc(vec![
        group("p", vec![chars("ab"), group("cursor", vec![])]),
        group("p", vec![chars("c")]),
    ])
}

fn place(walker: &Walker) -> (Vec<usize>, usize, usize) {
    (
        walker.doc.path().clone(),
        walker.doc.index(),
        walker.doc.char_debt(),
    )
}

fn at_path(doc: &Doc, cur: Vec<CurElement>) -> Walker {
    Walker::to_cursor(doc, &cur).unwrap()
}

#[test]
fn caret_is_found_in_first_paragraph() {
    let walker = Walker::to_caret(&two_paragraphs()).unwrap();
    assert_eq!(walker.caret_pos(), 1);
    assert_eq!(place(&walker), (vec![0], 1, 0));
    match walker.doc.head() {
        Some(DocElement::DocGroup(attrs, _)) => {
            assert_eq!(attrs.get("tag").map(|s| s.as_str()), Some("cursor"));
        }
        other => panic!("unexpected head {:?}", other),
    }
    assert_eq!(walker.original_doc(), &two_paragraphs());
}

#[test]
fn caret_counts_runs_and_blocks_only() {
    let doc = Doc(vec![
        chars("abc"),
        group("span", vec![chars("de"), chars("f")]),
        group("h1", vec![group("bullet", vec![group("cursor", vec![])])]),
    ]);
    let walker = Walker::to_caret(&doc).unwrap();
    // -1, three runs, one block; the span and the bullet are not counted.
    assert_eq!(walker.caret_pos(), 3);
    assert_eq!(place(&walker), (vec![2, 0], 0, 0));
}

#[test]
fn first_of_two_carets_is_found() {
    let doc = Doc(vec![
        group("p", vec![group("cursor", vec![]), chars("x")]),
        group("cursor", vec![]),
    ]);
    let walker = Walker::to_caret(&doc).unwrap();
    assert_eq!(place(&walker), (vec![0], 0, 0));
    assert_eq!(walker.caret_pos(), 0);
}

#[test]
fn single_caret_deep_in_the_tree_is_found() {
    let doc = Doc(vec![
        group("bullet", vec![group("p", vec![chars("one")])]),
        group(
            "bullet",
            vec![group(
                "p",
                vec![chars("tw"), group("span", vec![group("cursor", vec![])])],
            )],
        ),
    ]);
    let walker = Walker::to_caret(&doc).unwrap();
    assert_eq!(place(&walker), (vec![1, 0, 1], 0, 0));
    assert_eq!(walker.caret_pos(), 3);
}

#[test]
fn caret_at_the_very_start_leaves_counter_at_minus_one() {
    let doc = Doc(vec![group("cursor", vec![]), chars("ab")]);
    let walker = Walker::to_caret(&doc).unwrap();
    assert_eq!(place(&walker), (vec![], 0, 0));
    assert_eq!(walker.caret_pos(), -1);
}

#[test]
fn missing_caret_is_not_found() {
    let doc = Doc(vec![group("p", vec![chars("ab")])]);
    assert_eq!(Walker::to_caret(&doc).err(), Some(WalkerError::NotFound));
    assert_eq!(Walker::to_caret(&Doc(vec![])).err(), Some(WalkerError::NotFound));
}

#[test]
fn group_without_tag_is_neither_caret_nor_block() {
    let doc = Doc(vec![
        DocElement::DocGroup(Attrs::new(), vec![chars("a")]),
        group("cursor", vec![]),
    ]);
    let walker = Walker::to_caret(&doc).unwrap();
    assert_eq!(place(&walker), (vec![], 1, 0));
    assert_eq!(walker.caret_pos(), 0);
}

#[test]
fn empty_run_is_malformed() {
    let doc = Doc(vec![group("p", vec![chars(""), group("cursor", vec![])])]);
    assert_eq!(doc.validate(), Err(WalkerError::Malformed));
    assert_eq!(Walker::to_caret(&doc).err(), Some(WalkerError::Malformed));
    assert_eq!(
        Walker::to_cursor(&doc, &vec![CurElement::CurGroup]).err(),
        Some(WalkerError::Malformed)
    );
}

#[test]
fn cursor_path_leads_into_second_paragraph() {
    let cur = vec![
        CurElement::CurWithGroup(vec![
            CurElement::CurSkip(2),
            CurElement::CurWithGroup(vec![]),
        ]),
        CurElement::CurWithGroup(vec![CurElement::CurChar]),
    ];
    let walker = at_path(&two_paragraphs(), cur);
    assert_eq!(place(&walker), (vec![1], 0, 0));
    // -1, two blocks, two characters.
    assert_eq!(walker.caret_pos(), 3);
}

#[test]
fn cursor_path_ends_inside_a_run() {
    let cur = vec![CurElement::CurWithGroup(vec![
        CurElement::CurSkip(1),
        CurElement::CurChar,
    ])];
    let walker = at_path(&two_paragraphs(), cur);
    assert_eq!(place(&walker), (vec![0], 0, 1));
    assert_eq!(walker.caret_pos(), 1);
}

#[test]
fn cursor_path_ends_before_a_group() {
    let cur = vec![CurElement::CurWithGroup(vec![
        CurElement::CurSkip(2),
        CurElement::CurGroup,
    ])];
    let walker = at_path(&two_paragraphs(), cur);
    assert_eq!(place(&walker), (vec![0], 1, 0));
    assert_eq!(walker.caret_pos(), 2);
}

#[test]
fn cursor_path_that_ends_at_once_stays_at_the_start() {
    let walker = at_path(&two_paragraphs(), vec![CurElement::CurGroup]);
    assert_eq!(place(&walker), (vec![], 0, 0));
    assert_eq!(walker.caret_pos(), -1);
}

#[test]
fn split_skips_count_like_one() {
    let doc = Doc(vec![chars("abcd"), chars("ef")]);
    let cur = vec![
        CurElement::CurSkip(3),
        CurElement::CurSkip(2),
        CurElement::CurChar,
    ];
    let walker = at_path(&doc, cur);
    assert_eq!(place(&walker), (vec![], 1, 1));
    assert_eq!(walker.caret_pos(), 4);
}

#[test]
fn cursor_path_without_marker_is_not_found() {
    let cur = vec![
        CurElement::CurWithGroup(vec![
            CurElement::CurSkip(2),
            CurElement::CurWithGroup(vec![]),
        ]),
        CurElement::CurWithGroup(vec![CurElement::CurSkip(1)]),
    ];
    assert_eq!(
        Walker::to_cursor(&two_paragraphs(), &cur).err(),
        Some(WalkerError::NotFound)
    );
    assert_eq!(
        Walker::to_cursor(&two_paragraphs(), &vec![]).err(),
        Some(WalkerError::NotFound)
    );
}

#[test]
fn cursor_path_that_skips_a_group_is_not_found() {
    let cur = vec![
        CurElement::CurSkip(1),
        CurElement::CurWithGroup(vec![CurElement::CurChar]),
    ];
    assert_eq!(
        Walker::to_cursor(&two_paragraphs(), &cur).err(),
        Some(WalkerError::NotFound)
    );
}

#[test]
fn cursor_path_that_enters_text_is_not_found() {
    let doc = Doc(vec![chars("ab")]);
    let cur = vec![CurElement::CurWithGroup(vec![CurElement::CurChar])];
    assert_eq!(
        Walker::to_cursor(&doc, &cur).err(),
        Some(WalkerError::NotFound)
    );
}

#[test]
fn next_block_enters_second_paragraph() {
    let mut walker = Walker::to_caret(&two_paragraphs()).unwrap();
    assert_eq!(walker.back_block(), Ok(()));
    assert_eq!(place(&walker), (vec![1], 0, 0));
    assert_eq!(walker.caret_pos(), 1);
}

#[test]
fn next_block_is_searched_inside_other_groups() {
    let doc = Doc(vec![
        group("bullet", vec![group("p", vec![group("cursor", vec![])])]),
        chars("xy"),
        group("bullet", vec![chars("z"), group("h2", vec![chars("t")])]),
    ]);
    let mut walker = Walker::to_caret(&doc).unwrap();
    assert_eq!(place(&walker), (vec![0, 0], 0, 0));
    assert_eq!(walker.back_block(), Ok(()));
    assert_eq!(place(&walker), (vec![2, 1], 0, 0));
}

#[test]
fn next_block_at_top_level_is_not_found() {
    let doc = Doc(vec![group("cursor", vec![]), group("p", vec![chars("a")])]);
    let mut walker = Walker::to_caret(&doc).unwrap();
    assert_eq!(walker.back_block(), Err(WalkerError::NotFound));
    assert_eq!(place(&walker), (vec![], 0, 0));
}

#[test]
fn next_block_without_a_block_ends_at_the_end() {
    let doc = Doc(vec![
        group("p", vec![group("cursor", vec![])]),
        group("span", vec![chars("a")]),
    ]);
    let mut walker = Walker::to_caret(&doc).unwrap();
    assert_eq!(walker.back_block(), Err(WalkerError::NotFound));
    assert_eq!(place(&walker), (vec![], 2, 0));
    assert!(walker.doc.is_done());
    assert_eq!(walker.caret_pos(), 0);
}

#[test]
fn next_char_passes_one_character() {
    let mut walker = at_path(&Doc(vec![chars("abc")]), vec![CurElement::CurChar]);
    walker.next_char();
    assert_eq!(place(&walker), (vec![], 0, 1));
    assert_eq!(walker.caret_pos(), 0);
    walker.next_char();
    walker.next_char();
    assert_eq!(place(&walker), (vec![], 1, 0));
    assert_eq!(walker.caret_pos(), 2);
    walker.next_char();
    assert_eq!(place(&walker), (vec![], 1, 0));
    assert_eq!(walker.caret_pos(), 2);
}

#[test]
fn next_char_stops_before_caret_and_block() {
    let mut walker = Walker::to_caret(&two_paragraphs()).unwrap();
    walker.next_char();
    assert_eq!(place(&walker), (vec![0], 1, 0));
    assert_eq!(walker.caret_pos(), 1);

    let mut walker = at_path(&two_paragraphs(), vec![CurElement::CurGroup]);
    walker.next_char();
    assert_eq!(place(&walker), (vec![], 0, 0));
    assert_eq!(walker.caret_pos(), 0);
    walker.next_char();
    assert_eq!(place(&walker), (vec![], 0, 0));
    assert_eq!(walker.caret_pos(), 1);
}

#[test]
fn next_char_enters_and_leaves_other_groups() {
    let doc = Doc(vec![
        group("span", vec![group("span", vec![])]),
        group("span", vec![chars("xy")]),
    ]);
    let mut walker = at_path(&doc, vec![CurElement::CurGroup]);
    walker.next_char();
    assert_eq!(place(&walker), (vec![1], 0, 1));
    assert_eq!(walker.caret_pos(), 0);
}

#[test]
fn next_char_then_back_char_restores_the_walker() {
    let doc = Doc(vec![group("p", vec![chars("abcd")])]);
    let cur = vec![CurElement::CurWithGroup(vec![
        CurElement::CurSkip(2),
        CurElement::CurChar,
    ])];
    let mut walker = at_path(&doc, cur);
    let before = (place(&walker), walker.caret_pos());
    assert_eq!(before, ((vec![0], 0, 2), 2));
    walker.next_char();
    assert_eq!((place(&walker), walker.caret_pos()), ((vec![0], 0, 3), 3));
    assert_eq!(walker.back_char(), Ok(()));
    assert_eq!((place(&walker), walker.caret_pos()), before);
}

#[test]
fn next_char_then_back_char_restores_across_runs() {
    let doc = Doc(vec![chars("ab"), chars("cd")]);
    let cur = vec![CurElement::CurSkip(1), CurElement::CurChar];
    let mut walker = at_path(&doc, cur);
    let before = (place(&walker), walker.caret_pos());
    assert_eq!(before, ((vec![], 0, 1), 0));
    walker.next_char();
    assert_eq!((place(&walker), walker.caret_pos()), ((vec![], 1, 0), 1));
    assert_eq!(walker.back_char(), Ok(()));
    assert_eq!((place(&walker), walker.caret_pos()), before);
}

#[test]
fn back_char_at_start_of_list_is_not_found() {
    let mut walker = at_path(
        &two_paragraphs(),
        vec![CurElement::CurWithGroup(vec![CurElement::CurChar])],
    );
    assert_eq!(place(&walker), (vec![0], 0, 0));
    assert_eq!(walker.back_char(), Err(WalkerError::NotFound));
    assert_eq!(place(&walker), (vec![0], 0, 0));
    assert_eq!(walker.caret_pos(), 0);
}

#[test]
fn back_char_to_before_the_first_character_is_not_found() {
    let doc = Doc(vec![chars("abc")]);
    let mut walker = at_path(&doc, vec![CurElement::CurSkip(1), CurElement::CurChar]);
    assert_eq!(walker.back_char(), Err(WalkerError::NotFound));
    assert_eq!(place(&walker), (vec![], 0, 0));
    assert_eq!(walker.caret_pos(), 0);
}

#[test]
fn back_char_goes_back_over_a_group() {
    let doc = Doc(vec![chars("ab"), group("span", vec![chars("c")]), chars("d")]);
    let cur = vec![
        CurElement::CurSkip(2),
        CurElement::CurWithGroup(vec![CurElement::CurSkip(1)]),
        CurElement::CurChar,
    ];
    let mut walker = at_path(&doc, cur);
    assert_eq!((place(&walker), walker.caret_pos()), ((vec![], 2, 0), 2));
    assert_eq!(walker.back_char(), Ok(()));
    assert_eq!((place(&walker), walker.caret_pos()), ((vec![], 1, 0), 1));
}

#[test]
fn snap_at_first_character_is_not_found() {
    let doc = Doc(vec![chars("abc"), group("cursor", vec![])]);
    let mut walker = at_path(&doc, vec![CurElement::CurChar]);
    assert_eq!(place(&walker), (vec![], 0, 0));
    assert_eq!(walker.snap_char(), Err(WalkerError::NotFound));
    assert_eq!(place(&walker), (vec![], 0, 0));
    assert_eq!(walker.caret_pos(), -1);
}

#[test]
fn snap_at_first_character_of_a_block_stops_before_the_block() {
    let doc = Doc(vec![chars("x"), group("p", vec![chars("abc")])]);
    let cur = vec![
        CurElement::CurSkip(1),
        CurElement::CurWithGroup(vec![CurElement::CurChar]),
    ];
    let mut walker = at_path(&doc, cur);
    assert_eq!((place(&walker), walker.caret_pos()), ((vec![1], 0, 0), 1));
    assert_eq!(walker.snap_char(), Err(WalkerError::NotFound));
    assert_eq!((place(&walker), walker.caret_pos()), ((vec![], 1, 0), 0));
}

#[test]
fn snap_behind_a_character_stays() {
    let doc = Doc(vec![chars("abc")]);
    let mut walker = at_path(&doc, vec![CurElement::CurSkip(2), CurElement::CurChar]);
    assert_eq!(walker.snap_char(), Ok(()));
    assert_eq!((place(&walker), walker.caret_pos()), ((vec![], 0, 2), 0));
}

#[test]
fn snap_leaves_other_groups_and_enters_groups_from_their_end() {
    let doc = Doc(vec![
        group("p", vec![chars("ab")]),
        group("span", vec![group("span", vec![chars("c")])]),
    ]);
    let cur = vec![
        CurElement::CurWithGroup(vec![CurElement::CurSkip(2)]),
        CurElement::CurWithGroup(vec![CurElement::CurWithGroup(vec![CurElement::CurChar])]),
    ];
    let mut walker = at_path(&doc, cur);
    assert_eq!((place(&walker), walker.caret_pos()), ((vec![1, 0], 0, 0), 2));
    assert_eq!(walker.snap_char(), Ok(()));
    assert_eq!((place(&walker), walker.caret_pos()), ((vec![0], 1, 0), 1));
}

#[test]
fn writers_at_the_start_are_empty() {
    let doc = Doc(vec![group("cursor", vec![]), chars("ab")]);
    let walker = Walker::to_caret(&doc).unwrap();
    let (del, add) = walker.to_writers();
    assert_eq!(del.depth(), 0);
    assert_eq!(add.depth(), 0);
    assert_eq!(del.result(), Vec::<DelElement>::new());
    assert_eq!(add.result(), Vec::<AddElement>::new());
}

#[test]
fn writers_to_caret_skip_what_precedes() {
    let walker = Walker::to_caret(&two_paragraphs()).unwrap();
    let (mut del, mut add) = walker.to_writers();
    assert_eq!(del.depth(), 1);
    assert_eq!(add.depth(), 1);
    del.exit();
    add.exit();
    assert_eq!(
        del.result(),
        vec![DelElement::DelWithGroup(vec![DelElement::DelSkip(2)])]
    );
    assert_eq!(
        add.result(),
        vec![AddElement::AddWithGroup(vec![AddElement::AddSkip(2)])]
    );
}

#[test]
fn writers_after_next_block_skip_the_first_paragraph() {
    let mut walker = Walker::to_caret(&two_paragraphs()).unwrap();
    assert_eq!(walker.back_block(), Ok(()));
    let (mut del, mut add) = walker.to_writers();
    assert_eq!(del.depth(), 1);
    del.exit();
    add.exit();
    assert_eq!(
        del.result(),
        vec![
            DelElement::DelWithGroup(vec![
                DelElement::DelSkip(2),
                DelElement::DelWithGroup(vec![]),
            ]),
            DelElement::DelWithGroup(vec![]),
        ]
    );
    assert_eq!(
        add.result(),
        vec![
            AddElement::AddWithGroup(vec![
                AddElement::AddSkip(2),
                AddElement::AddWithGroup(vec![]),
            ]),
            AddElement::AddWithGroup(vec![]),
        ]
    );
}

#[test]
fn writers_merge_skips_of_adjacent_runs() {
    let doc = Doc(vec![chars("ab"), chars("cde"), group("span", vec![]), chars("f")]);
    let cur = vec![
        CurElement::CurSkip(5),
        CurElement::CurWithGroup(vec![]),
        CurElement::CurChar,
    ];
    let walker = at_path(&doc, cur);
    let (del, _) = walker.to_writers();
    assert_eq!(
        del.result(),
        vec![DelElement::DelSkip(5), DelElement::DelWithGroup(vec![])]
    );
    let walker = at_path(&doc, vec![CurElement::CurSkip(3), CurElement::CurChar]);
    let (_, add) = walker.to_writers();
    assert_eq!(add.result(), vec![AddElement::AddSkip(3)]);
}

#[test]
fn stepper_is_reached_through_the_walker() {
    let walker = Walker::to_caret(&two_paragraphs()).unwrap();
    assert_eq!(walker.doc().path(), &vec![0usize]);
    assert_eq!(walker.doc().index(), walker.doc.index());
    assert!(walker.doc().same_place(&walker.doc));
}

#[test]
fn cursor_path_of_a_place_leads_back_to_it() {
    let doc = Doc(vec![
        chars("ab"),
        group("bullet", vec![group("p", vec![chars("cde")]), chars("f")]),
        group("p", vec![chars("ghi"), group("span", vec![])]),
    ]);
    // The path to the place behind "h": each sibling before it is passed by
    // one element, each group entered by a `WithGroup`.
    let cur = vec![
        CurElement::CurSkip(2),
        CurElement::CurWithGroup(vec![
            CurElement::CurWithGroup(vec![CurElement::CurSkip(3)]),
            CurElement::CurSkip(1),
        ]),
        CurElement::CurWithGroup(vec![CurElement::CurSkip(2), CurElement::CurChar]),
    ];
    let walker = at_path(&doc, cur);
    assert_eq!(place(&walker), (vec![2], 0, 2));
    // -1, eight characters, two blocks.
    assert_eq!(walker.caret_pos(), 9);
    let (mut del, _) = walker.to_writers();
    del.exit();
    assert_eq!(
        del.result(),
        vec![
            DelElement::DelSkip(2),
            DelElement::DelWithGroup(vec![
                DelElement::DelWithGroup(vec![DelElement::DelSkip(3)]),
                DelElement::DelSkip(1),
            ]),
            DelElement::DelWithGroup(vec![DelElement::DelSkip(2)]),
        ]
    );
}
