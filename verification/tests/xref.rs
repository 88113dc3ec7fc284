use indexmap::IndexMap;
use mdbook_xref::book::{Book, BookItem, Chapter};
use mdbook_xref::crossref::{CrossrefPreprocessor as LenientCrossref, XrefError};
use mdbook_xref::extract::{extract_elements_recursively, Link};
use mdbook_xref::rewrite::Rewrites;
use mdbook_xref::xref::CrossrefPreprocessor;

fn chapter(content: &str, path: &str, sub_items: Vec<BookItem>) -> Chapter {
    Chapter {
        name: path.to_string(),
        content: content.to_string(),
        number: None,
        sub_items,
        path: Some(path.to_string()),
        source_path: Some(path.to_string()),
        parent_names: Vec::new(),
    }
}

fn book_of(chapters: Vec<Chapter>) -> Book {
    Book { items: chapters.into_iter().map(BookItem::Chapter).collect() }
}

fn content_at(book: &Book, i: usize) -> String {
    match &book.items[i] {
        BookItem::Chapter(c) => c.content.clone(),
        _ => panic!("not a chapter"),
    }
}

#[test]
fn label_with_text_renders_a_span_and_references_link_to_it() {
    let mut book = book_of(vec![chapter(
        "[the text](label:t \"Sup\")\n\nSee [here](ref:t) and <ref:t>.\n",
        "ch.md",
        Vec::new(),
    )]);
    CrossrefPreprocessor::rewrite_book(&mut book).unwrap();
    assert_eq!(
        content_at(&book, 0),
        "<span id=\"t\"><p>the text</p>\n</span>\n\nSee [here](/ch.md#t) and [Sup](/ch.md#t).\n"
    );
}

#[test]
fn references_reach_labels_of_other_chapters() {
    let sub = chapter("Back to <ref:intro>.\n", "part/sub.md", Vec::new());
    let mut book = book_of(vec![
        chapter("# Intro\n[](label:intro \"the introduction\")\n", "intro.md", Vec::new()),
        chapter("Text\n", "part.md", vec![BookItem::Chapter(sub)]),
    ]);
    CrossrefPreprocessor::rewrite_book(&mut book).unwrap();
    assert_eq!(content_at(&book, 0), "# Intro\n\n");
    match &book.items[1] {
        BookItem::Chapter(c) => match &c.sub_items[0] {
            BookItem::Chapter(s) => {
                assert_eq!(s.content, "Back to [the introduction](/intro.md#intro).\n")
            }
            _ => panic!("not a chapter"),
        },
        _ => panic!("not a chapter"),
    }
}

#[test]
fn label_and_reference_without_text() {
    let mut book = book_of(vec![chapter("[](label:x \"S\")\n\n[](ref:x)", "a.md", Vec::new())]);
    CrossrefPreprocessor::rewrite_book(&mut book).unwrap();
    assert_eq!(content_at(&book, 0), "\n\n[S](/a.md#x)");
}

#[test]
fn failed_cross_referencing_leaves_the_book_alone() {
    let src = "[a](label:x)\n\n<ref:y>\n";
    let mut book = book_of(vec![chapter(src, "a.md", Vec::new())]);
    assert!(CrossrefPreprocessor::rewrite_book(&mut book).is_err());
    assert_eq!(content_at(&book, 0), src);
}

#[test]
fn duplicate_label_is_an_error() {
    let mut book = book_of(vec![
        chapter("[a](label:x)\n", "a.md", Vec::new()),
        chapter("[b](label:x)\n", "b.md", Vec::new()),
    ]);
    match CrossrefPreprocessor::rewrite_book(&mut book) {
        Err(XrefError::DuplicateLabel(id)) => assert_eq!(id, "x"),
        _ => panic!("expected a duplicate label"),
    }
}

#[test]
fn unknown_reference_is_an_error() {
    let mut book = book_of(vec![chapter("[a](label:x)\n\n<ref:y>\n", "a.md", Vec::new())]);
    match CrossrefPreprocessor::rewrite_book(&mut book) {
        Err(XrefError::UnknownReference(id)) => assert_eq!(id, "y"),
        _ => panic!("expected an unknown reference"),
    }
}

#[test]
fn reference_without_text_or_supplement_is_left_alone() {
    let mut book = book_of(vec![chapter("[a](label:x)\n\nSee <ref:x>.\n", "a.md", Vec::new())]);
    CrossrefPreprocessor::rewrite_book(&mut book).unwrap();
    assert_eq!(content_at(&book, 0), "<span id=\"x\"><p>a</p>\n</span>\n\nSee <ref:x>.\n");
}

#[test]
fn book_without_cross_references_is_unchanged() {
    let mut book = book_of(vec![chapter("Just [a link](other.md) and <https://x.org>.\n", "a.md", Vec::new())]);
    CrossrefPreprocessor::rewrite_book(&mut book).unwrap();
    assert_eq!(content_at(&book, 0), "Just [a link](other.md) and <https://x.org>.\n");
}

fn lenient(items: &Vec<BookItem>) -> LenientCrossref {
    let mut map: IndexMap<String, Vec<Link>> = IndexMap::new();
    extract_elements_recursively(items, &mut map).unwrap();
    LenientCrossref { map, rewrites: Rewrites::default() }
}

#[test]
fn create_crossref_rewrites_rejects_unknown_references() {
    let book = book_of(vec![chapter("[a](label:x \"X\")\n\n<ref:x> <ref:nope>\n", "a.md", Vec::new())]);
    let items = book.items;
    let mut pre = lenient(&items);
    match pre.create_crossref_rewrites() {
        Err(XrefError::UnknownReference(id)) => assert_eq!(id, "nope"),
        _ => panic!("expected an unknown reference"),
    }
}

#[test]
fn create_crossref_rewrites_resolves_references() {
    let book = book_of(vec![chapter("[a](label:x \"X\")\n\n<ref:x> [see](ref:x)\n", "a.md", Vec::new())]);
    let mut items = book.items;
    let mut pre = lenient(&items);
    pre.create_crossref_rewrites().unwrap();
    assert!(pre.rewrites.try_apply(&mut items));
    match &items[0] {
        BookItem::Chapter(c) => {
            assert_eq!(c.content, "<span id=\"x\"><p>a</p>\n</span>\n\n[X](/a.md#x) [see](/a.md#x)\n")
        }
        _ => panic!("not a chapter"),
    }
}

#[test]
fn lenient_crossref_rewrites_let_the_later_label_win() {
    let book = book_of(vec![
        chapter("[](label:x \"first\")\n", "a.md", Vec::new()),
        chapter("[](label:x \"second\")\n\n<ref:x>\n", "b.md", Vec::new()),
    ]);
    let mut items = book.items;
    let mut pre = lenient(&items);
    pre.create_crossref_rewrites().unwrap();
    assert!(pre.rewrites.try_apply(&mut items));
    match &items[1] {
        BookItem::Chapter(c) => assert_eq!(c.content, "\n\n[second](/b.md#x)\n"),
        _ => panic!("not a chapter"),
    }
}

#[test]
fn reference_links_are_resolved() {
    let mut book = book_of(vec![chapter(
        "[a piece of referenceable text](label:a_piece_of_text \"an optional supplement\")\n\n[A reference to the text][1]\n\n[1]: ref:a_piece_of_text\n",
        "intro.md",
        Vec::new(),
    )]);
    CrossrefPreprocessor::rewrite_book(&mut book).unwrap();
    assert!(content_at(&book, 0).ends_with(
        "\n\n[A reference to the text](/intro.md#a_piece_of_text)\n\n[1]: ref:a_piece_of_text\n"
    ));
}

#[test]
fn reference_text_keeps_its_markup() {
    let mut book = book_of(vec![
        chapter("[](label:a-label \"Figure 1\")\n", "figures.md", Vec::new()),
        chapter("we can refer to [`ref:a-label`](ref:a-label), or <ref:a-label>.\n", "text.md", Vec::new()),
    ]);
    CrossrefPreprocessor::rewrite_book(&mut book).unwrap();
    assert_eq!(
        content_at(&book, 1),
        "we can refer to [`ref:a-label`](/figures.md#a-label), or [Figure 1](/figures.md#a-label).\n"
    );
}
