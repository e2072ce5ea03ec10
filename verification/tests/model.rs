use mercutio::doc::{AddElement, Attrs, CurElement, DelElement, Doc, DocElement, Style};
use mercutio::schema::{classify, has_block_tag, has_cursor_tag, TrackType};
use mercutio::stepper::{CurStepper, DocStepper};
use mercutio::text::str_eq;
use mercutio::validate::{measure, WalkerError};
use mercutio::writer::{AddWriter, DelWriter};

fn with_tag(tag: &str) -> Attrs {
    let mut attrs = Attrs::new();
    attrs.insert("tag".to_string(), tag.to_string());
    attrs
}

fn text(s: &str) -> DocElement {
    DocElement::DocChars(s.to_string())
}

fn sample() -> Vec<DocElement> {
    vec![
        text("ab"),
        DocElement::DocGroup(
            with_tag("p"),
            vec![text("c"), DocElement::DocGroup(with_tag("span"), vec![])],
        ),
        text("d"),
    ]
}

fn where_is(stepper: &DocStepper) -> (Vec<usize>, usize, usize) {
    (stepper.path().clone(), stepper.index(), stepper.char_debt())
}

#[test]
fn strings_are_compared_by_characters() {
    assert!(str_eq("", ""));
    assert!(str_eq("cursor", "cursor"));
    assert!(!str_eq("cursor", "cursoR"));
    assert!(!str_eq("p", "pre"));
    assert!(str_eq("h\u{e9}llo \u{1f600}", "h\u{e9}llo \u{1f600}"));
    assert!(!str_eq("h\u{e9}llo", "hello"));
}

#[test]
fn attrs_keep_the_last_value_of_a_key() {
    let mut attrs = Attrs::new();
    assert_eq!(attrs.get("tag"), None);
    attrs.insert("tag".to_string(), "p".to_string());
    attrs.insert("class".to_string(), "x".to_string());
    assert_eq!(attrs.get("tag").map(|s| s.as_str()), Some("p"));
    attrs.insert("tag".to_string(), "h1".to_string());
    assert_eq!(attrs.get("tag").map(|s| s.as_str()), Some("h1"));
    assert_eq!(attrs.get("class").map(|s| s.as_str()), Some("x"));
    assert_eq!(attrs.get("id"), None);
    assert_eq!(attrs.entry_count(), 3);
    let (k, v) = attrs.entry(1);
    assert_eq!((k.as_str(), v.as_str()), ("class", "x"));
}

#[test]
fn attrs_are_equal_as_mappings() {
    let mut a = Attrs::new();
    a.insert("tag".to_string(), "p".to_string());
    a.insert("class".to_string(), "x".to_string());
    let mut b = Attrs::new();
    b.insert("class".to_string(), "x".to_string());
    b.insert("tag".to_string(), "h1".to_string());
    assert!(a != b);
    b.insert("tag".to_string(), "p".to_string());
    assert!(a == b);
    assert!(a.clone() == a);
    b.insert("id".to_string(), "1".to_string());
    assert!(a != b);
    assert!(b != a);
    assert!(Attrs::new() == Attrs::new());
}

#[test]
fn copies_are_equal_to_their_originals() {
    let doc = Doc(sample());
    assert_eq!(doc.clone(), doc);
    let del = DelElement::DelGroup(vec![
        DelElement::DelSkip(1),
        DelElement::DelChars(2),
        DelElement::DelWithGroup(vec![]),
        DelElement::DelStyles(3, vec![Style::Bold, Style::Link]),
    ]);
    assert_eq!(del.clone(), del);
    let add = AddElement::AddGroup(
        with_tag("p"),
        vec![
            AddElement::AddSkip(1),
            AddElement::AddChars("x".to_string()),
            AddElement::AddWithGroup(vec![]),
            AddElement::AddStyles(
                2,
                vec![(Style::Link, Some("u".to_string())), (Style::Italic, None)],
            ),
        ],
    );
    assert_eq!(add.clone(), add);
    let cur = CurElement::CurWithGroup(vec![
        CurElement::CurSkip(4),
        CurElement::CurGroup,
        CurElement::CurChar,
    ]);
    assert_eq!(cur.clone(), cur);
}

#[test]
fn tags_are_classified() {
    assert_eq!(classify(&with_tag("bullet")), Some(TrackType::ListItems));
    assert_eq!(classify(&with_tag("blockquote")), Some(TrackType::BlockQuotes));
    for tag in ["p", "h1", "h2", "h3", "h4", "h5", "h6", "pre"] {
        assert_eq!(classify(&with_tag(tag)), Some(TrackType::Blocks));
        assert!(has_block_tag(&with_tag(tag)));
    }
    assert_eq!(classify(&with_tag("hr")), Some(TrackType::BlockObjects));
    assert_eq!(classify(&with_tag("span")), Some(TrackType::Inlines));
    assert_eq!(classify(&with_tag("cursor")), Some(TrackType::InlineObjects));
    assert_eq!(classify(&with_tag("table")), None);
    assert_eq!(classify(&Attrs::new()), None);
    assert!(!has_block_tag(&with_tag("span")));
    assert!(!has_block_tag(&Attrs::new()));
    assert!(has_cursor_tag(&with_tag("cursor")));
    assert!(!has_cursor_tag(&with_tag("p")));
    assert!(!has_cursor_tag(&Attrs::new()));
}

#[test]
fn classification_reads_the_tag_only() {
    let mut attrs = Attrs::new();
    attrs.insert("class".to_string(), "p".to_string());
    assert_eq!(classify(&attrs), None);
    attrs.insert("tag".to_string(), "pre".to_string());
    assert_eq!(classify(&attrs), Some(TrackType::Blocks));
}

#[test]
fn measure_counts_the_moves_of_a_walk() {
    assert_eq!(measure(&vec![]), Some(0));
    assert_eq!(measure(&vec![text("abc")]), Some(3));
    // "ab" 2, the paragraph 2 + 1 + (2 + 0), "d" 1.
    assert_eq!(measure(&sample()), Some(8));
    assert_eq!(measure(&vec![text("h\u{e9}\u{1f600}")]), Some(3));
    assert_eq!(measure(&vec![text("a"), text("")]), None);
    assert_eq!(
        measure(&vec![DocElement::DocGroup(with_tag("p"), vec![text("")])]),
        None
    );
    assert_eq!(Doc(sample()).validate(), Ok(()));
    assert_eq!(
        Doc(vec![text("")]).validate(),
        Err(WalkerError::Malformed)
    );
}

#[test]
fn stepper_walks_forward() {
    let mut stepper = DocStepper::new(&sample());
    assert_eq!(where_is(&stepper), (vec![], 0, 0));
    assert_eq!(stepper.head(), Some(&text("ab")));
    assert_eq!(stepper.behind(), None);
    assert!(!stepper.is_done());
    stepper.skip(1);
    assert_eq!(where_is(&stepper), (vec![], 0, 1));
    assert_eq!(stepper.head(), Some(&text("ab")));
    stepper.skip(1);
    assert_eq!(where_is(&stepper), (vec![], 1, 0));
    assert_eq!(stepper.behind(), Some(&text("ab")));
    stepper.enter();
    assert_eq!(where_is(&stepper), (vec![1], 0, 0));
    assert_eq!(stepper.depth(), 1);
    stepper.next();
    assert_eq!(where_is(&stepper), (vec![1], 1, 0));
    stepper.enter();
    assert_eq!(where_is(&stepper), (vec![1, 1], 0, 0));
    assert_eq!(stepper.head(), None);
    assert!(!stepper.is_done());
    stepper.exit();
    assert_eq!(where_is(&stepper), (vec![1], 2, 0));
    assert_eq!(stepper.head(), None);
    stepper.exit();
    assert_eq!(where_is(&stepper), (vec![], 2, 0));
    stepper.skip(1);
    assert_eq!(where_is(&stepper), (vec![], 3, 0));
    assert_eq!(stepper.head(), None);
    assert!(stepper.is_done());
}

#[test]
fn stepper_walks_backward() {
    let mut stepper = DocStepper::new(&sample());
    stepper.next();
    stepper.next();
    stepper.next();
    assert_eq!(where_is(&stepper), (vec![], 3, 0));
    stepper.unskip(1);
    assert_eq!(where_is(&stepper), (vec![], 2, 0));
    stepper.unexit();
    assert_eq!(where_is(&stepper), (vec![1], 2, 0));
    stepper.unexit();
    assert_eq!(where_is(&stepper), (vec![1, 1], 0, 0));
    stepper.unenter();
    assert_eq!(where_is(&stepper), (vec![1], 1, 0));
    stepper.unskip(1);
    assert_eq!(where_is(&stepper), (vec![1], 0, 0));
    stepper.unenter();
    assert_eq!(where_is(&stepper), (vec![], 1, 0));
    stepper.unskip(2);
    assert_eq!(where_is(&stepper), (vec![], 0, 0));
    stepper.skip(2);
    stepper.unskip(1);
    assert_eq!(where_is(&stepper), (vec![], 0, 1));
    stepper.unskip(1);
    assert_eq!(where_is(&stepper), (vec![], 0, 0));
    stepper.next();
    stepper.next();
    stepper.prev();
    assert_eq!(where_is(&stepper), (vec![], 1, 0));
}

#[test]
fn steppers_compare_by_place() {
    let mut a = DocStepper::new(&sample());
    let mut b = DocStepper::new(&sample());
    assert!(a.same_place(&b));
    a.skip(1);
    assert!(!a.same_place(&b));
    b.skip(1);
    assert!(a.same_place(&b));
    a.skip(1);
    b.skip(1);
    a.enter();
    assert!(!a.same_place(&b));
    assert!(!b.same_place(&a));
    b.enter();
    assert!(a.same_place(&b));
    a.next();
    a.enter();
    b.next();
    b.next();
    assert!(!a.same_place(&b));
}

#[test]
fn cursor_stepper_takes_units_of_a_skip() {
    let span = vec![
        CurElement::CurSkip(2),
        CurElement::CurSkip(0),
        CurElement::CurWithGroup(vec![CurElement::CurSkip(1), CurElement::CurChar]),
        CurElement::CurGroup,
    ];
    let mut stepper = CurStepper::new(&span);
    assert_eq!(stepper.head(), Some(&CurElement::CurSkip(2)));
    stepper.skip();
    assert_eq!(stepper.head(), Some(&CurElement::CurSkip(2)));
    stepper.skip();
    assert_eq!(stepper.head(), Some(&CurElement::CurSkip(0)));
    stepper.skip();
    assert_eq!(stepper.depth(), 0);
    stepper.enter();
    assert_eq!(stepper.depth(), 1);
    assert_eq!(stepper.head(), Some(&CurElement::CurSkip(1)));
    stepper.skip();
    assert_eq!(stepper.head(), Some(&CurElement::CurChar));
    stepper.exit();
    assert_eq!(stepper.depth(), 0);
    assert_eq!(stepper.head(), Some(&CurElement::CurGroup));
    assert!(!stepper.is_done());
    stepper.skip();
    assert_eq!(stepper.head(), None);
    assert!(stepper.is_done());
}

#[test]
fn del_writer_merges_skips_and_deletions() {
    let mut w = DelWriter::new();
    w.skip(0);
    w.skip(2);
    w.skip(3);
    w.delete_chars(1);
    w.delete_chars(0);
    w.delete_chars(4);
    w.skip(1);
    assert_eq!(
        w.result(),
        vec![
            DelElement::DelSkip(5),
            DelElement::DelChars(5),
            DelElement::DelSkip(1),
        ]
    );
}

#[test]
fn del_writer_does_not_merge_beyond_usize() {
    let mut w = DelWriter::new();
    w.skip(usize::MAX);
    w.skip(1);
    w.delete_chars(usize::MAX - 1);
    w.delete_chars(1);
    w.delete_chars(1);
    assert_eq!(
        w.result(),
        vec![
            DelElement::DelSkip(usize::MAX),
            DelElement::DelSkip(1),
            DelElement::DelChars(usize::MAX),
            DelElement::DelChars(1),
        ]
    );
}

#[test]
fn del_writer_nests_groups() {
    let mut w = DelWriter::new();
    w.skip(1);
    w.begin();
    assert_eq!(w.depth(), 1);
    w.skip(2);
    w.begin();
    w.delete_chars(3);
    w.close();
    w.skip(1);
    w.exit();
    assert_eq!(w.depth(), 0);
    w.skip(1);
    assert_eq!(
        w.result(),
        vec![
            DelElement::DelSkip(1),
            DelElement::DelWithGroup(vec![
                DelElement::DelSkip(2),
                DelElement::DelGroup(vec![DelElement::DelChars(3)]),
                DelElement::DelSkip(1),
            ]),
            DelElement::DelSkip(1),
        ]
    );
}

#[test]
fn add_writer_merges_skips_and_text() {
    let mut w = AddWriter::new();
    w.chars("ab");
    w.chars("");
    w.chars("c");
    w.skip(1);
    w.skip(0);
    w.skip(2);
    w.chars("d");
    assert_eq!(
        w.result(),
        vec![
            AddElement::AddChars("abc".to_string()),
            AddElement::AddSkip(3),
            AddElement::AddChars("d".to_string()),
        ]
    );
    let mut w = AddWriter::new();
    w.skip(usize::MAX - 1);
    w.skip(2);
    assert_eq!(
        w.result(),
        vec![AddElement::AddSkip(usize::MAX - 1), AddElement::AddSkip(2)]
    );
}

#[test]
fn add_writer_nests_groups() {
    let mut w = AddWriter::new();
    w.begin();
    w.chars("x");
    w.begin();
    w.skip(1);
    w.exit();
    w.close(with_tag("p"));
    assert_eq!(w.depth(), 0);
    assert_eq!(
        w.result(),
        vec![AddElement::AddGroup(
            with_tag("p"),
            vec![
                AddElement::AddChars("x".to_string()),
                AddElement::AddWithGroup(vec![AddElement::AddSkip(1)]),
            ],
        )]
    );
}
