use mdbook_xref::book::{BookItem, Chapter};
use mdbook_xref::rewrite::{sort_rewrites, splice_content, Rewrite, Rewrites};

fn chapter(content: &str, path: Option<&str>, sub_items: Vec<BookItem>) -> Chapter {
    Chapter {
        name: "c".to_string(),
        content: content.to_string(),
        number: Some(vec![1, 2]),
        sub_items,
        path: path.map(|p| p.to_string()),
        source_path: None,
        parent_names: Vec::new(),
    }
}

fn rw(start: usize, end: usize, replacement: &str) -> Rewrite {
    Rewrite { range: start..end, replacement: replacement.to_string() }
}

fn content_of(item: &BookItem) -> &str {
    match item {
        BookItem::Chapter(c) => c.content.as_str(),
        _ => panic!("not a chapter"),
    }
}

#[test]
fn sort_rewrites_orders_by_start_and_keeps_ties_in_order() {
    let v = vec![rw(5, 6, "c"), rw(0, 1, "a"), rw(5, 5, "b"), rw(2, 3, "d")];
    let sorted = sort_rewrites(v);
    let got: Vec<&str> = sorted.iter().map(|r| r.replacement.as_str()).collect();
    assert_eq!(got, vec!["a", "d", "c", "b"]);
}

#[test]
fn splice_content_replaces_ranges() {
    let rws = vec![rw(0, 5, "Howdy"), rw(6, 11, "folks")];
    assert_eq!(splice_content("Hello world!", &rws, true), Some("Howdy folks!".to_string()));
}

#[test]
fn splice_content_with_no_rewrites_is_the_content() {
    assert_eq!(splice_content("same", &Vec::new(), false), Some("same".to_string()));
}

#[test]
fn splice_content_refuses_a_range_inside_a_character() {
    let rws = vec![rw(1, 2, "x")];
    assert_eq!(splice_content("äb", &rws, false), None);
}

#[test]
fn splice_content_refuses_overlapping_ranges_unless_empty_pieces_are_skipped() {
    // The second rewrite starts where the first ended: no piece between.
    let rws = vec![rw(0, 2, "X"), rw(2, 3, "Y")];
    assert_eq!(splice_content("abcd", &rws, true), Some("XYd".to_string()));
    assert_eq!(splice_content("abcd", &rws, false), Some("XYd".to_string()));
    // Overlap: the piece from 3 back to 1 is no range.
    let overlap = vec![rw(0, 3, "X"), rw(1, 4, "Y")];
    assert_eq!(splice_content("abcd", &overlap, false), None);
}

#[test]
fn at_gives_the_rewrites_of_a_path() {
    let mut rewrites = Rewrites::default();
    rewrites.at("a.md".to_string()).push(rw(0, 1, "x"));
    rewrites.at("b.md".to_string()).push(rw(1, 2, "y"));
    rewrites.at("a.md".to_string()).push(rw(2, 3, "z"));
    assert_eq!(rewrites.at("a.md".to_string()).len(), 2);
    assert_eq!(rewrites.at("b.md".to_string()).len(), 1);
    assert!(rewrites.at("c.md".to_string()).is_empty());
}

#[test]
fn apply_rewrites_chapters_in_order_of_start() {
    let mut rewrites = Rewrites::default();
    rewrites.at("a.md".to_string()).push(rw(6, 11, "folks"));
    rewrites.at("a.md".to_string()).push(rw(0, 5, "Howdy"));
    rewrites.at("b.md".to_string()).push(rw(0, 3, "sub"));
    let sub = chapter("one two", Some("b.md"), Vec::new());
    let mut items = vec![
        BookItem::Chapter(chapter("Hello world!", Some("a.md"), vec![BookItem::Chapter(sub)])),
        BookItem::Separator,
        BookItem::Chapter(chapter("untouched", Some("c.md"), Vec::new())),
    ];
    rewrites.apply(&mut items);
    assert_eq!(content_of(&items[0]), "Howdy folks!");
    match &items[0] {
        BookItem::Chapter(c) => {
            assert_eq!(content_of(&c.sub_items[0]), "sub two");
            assert_eq!(c.number, Some(vec![1, 2]));
        }
        _ => panic!("not a chapter"),
    }
    assert!(matches!(items[1], BookItem::Separator));
    assert_eq!(content_of(&items[2]), "untouched");
}

#[test]
fn apply_skips_the_sub_items_of_a_draft() {
    let mut rewrites = Rewrites::default();
    rewrites.at("child.md".to_string()).push(rw(0, 1, "X"));
    let child = chapter("abc", Some("child.md"), Vec::new());
    let mut items = vec![BookItem::Chapter(chapter("draft", None, vec![BookItem::Chapter(child)]))];
    rewrites.apply(&mut items);
    match &items[0] {
        BookItem::Chapter(c) => assert_eq!(content_of(&c.sub_items[0]), "abc"),
        _ => panic!("not a chapter"),
    }
}

#[test]
fn try_apply_reports_a_bad_range() {
    let mut rewrites = Rewrites::default();
    rewrites.at("a.md".to_string()).push(rw(2, 40, "x"));
    let mut items = vec![BookItem::Chapter(chapter("short", Some("a.md"), Vec::new()))];
    assert!(!rewrites.try_apply(&mut items));
}

#[test]
fn try_apply_with_no_rewrites_changes_nothing() {
    let rewrites = Rewrites::default();
    let mut items = vec![BookItem::Chapter(chapter("keep", Some("a.md"), Vec::new()))];
    assert!(rewrites.try_apply(&mut items));
    assert_eq!(content_of(&items[0]), "keep");
}
