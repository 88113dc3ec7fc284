use mdbook_xref::abbr::{build_abbreviations, rewrite_book, AbbrError, Abbreviation};
use mdbook_xref::book::{Book, BookItem, Chapter};

fn record(a: &str, e: &str) -> Abbreviation {
    Abbreviation { abbreviation: a.to_string(), expanded: e.to_string() }
}

fn chapter(content: &str, path: &str, sub_items: Vec<BookItem>) -> Chapter {
    Chapter {
        name: path.to_string(),
        content: content.to_string(),
        number: None,
        sub_items,
        path: Some(path.to_string()),
        source_path: None,
        parent_names: Vec::new(),
    }
}

fn chapter_at(book: &Book, i: usize) -> &Chapter {
    match &book.items[i] {
        BookItem::Chapter(c) => c,
        _ => panic!("not a chapter"),
    }
}

#[test]
fn first_use_is_written_out_and_later_uses_refer() {
    let mut book = Book {
        items: vec![BookItem::Chapter(chapter(
            "When writing a <abbr:CSV> file, quote. Another <abbr:CSV>.\n",
            "a.md",
            Vec::new(),
        ))],
    };
    rewrite_book(vec![record("CSV", "Comma Separated Value")], true, &mut book).unwrap();
    assert_eq!(book.items.len(), 3);
    assert_eq!(
        chapter_at(&book, 0).content,
        "When writing a [Comma Separated Value](ref:abbr-CSV) file, quote. Another <ref:abbr-CSV>.\n"
    );
    assert!(matches!(book.items[1], BookItem::Separator));
    let page = chapter_at(&book, 2);
    assert_eq!(page.name, "Abbreviations");
    assert_eq!(page.path, Some("abbreviations.md".to_string()));
    assert_eq!(page.content, "* [**CSV**: Comma Separated Value](label:abbr-CSV \"CSV\")\n");
}

#[test]
fn uses_are_counted_across_chapters_and_sub_chapters() {
    let sub = chapter("<abbr:A> and <abbr:B>\n", "a/sub.md", Vec::new());
    let mut book = Book {
        items: vec![
            BookItem::Chapter(chapter("<abbr:B>\n", "a.md", vec![BookItem::Chapter(sub)])),
            BookItem::Chapter(chapter("<abbr:A>\n", "b.md", Vec::new())),
        ],
    };
    rewrite_book(vec![record("A", "Alpha"), record("B", "Beta"), record("C", "Gamma")], false, &mut book)
        .unwrap();
    assert_eq!(book.items.len(), 3);
    let first = chapter_at(&book, 0);
    assert_eq!(first.content, "[Beta](ref:abbr-B)\n");
    match &first.sub_items[0] {
        BookItem::Chapter(s) => assert_eq!(s.content, "[Alpha](ref:abbr-A) and <ref:abbr-B>\n"),
        _ => panic!("not a chapter"),
    }
    assert_eq!(chapter_at(&book, 1).content, "<ref:abbr-A>\n");
    assert_eq!(
        chapter_at(&book, 2).content,
        "* [**B**: Beta](label:abbr-B \"B\")\n* [**A**: Alpha](label:abbr-A \"A\")\n"
    );
}

#[test]
fn book_without_abbreviations_gets_no_page() {
    let mut book = Book { items: vec![BookItem::Chapter(chapter("plain <https://x.org>\n", "a.md", Vec::new()))] };
    rewrite_book(vec![record("A", "Alpha")], true, &mut book).unwrap();
    assert_eq!(book.items.len(), 1);
    assert_eq!(chapter_at(&book, 0).content, "plain <https://x.org>\n");
}

#[test]
fn unknown_abbreviation_is_an_error() {
    let mut book = Book { items: vec![BookItem::Chapter(chapter("<abbr:XYZ>\n", "a.md", Vec::new()))] };
    match rewrite_book(vec![record("A", "Alpha")], true, &mut book) {
        Err(AbbrError::Unknown(a)) => assert_eq!(a, "XYZ"),
        _ => panic!("expected an unknown abbreviation"),
    }
}

#[test]
fn abbreviation_defined_twice_is_an_error() {
    match build_abbreviations(vec![record("A", "Alpha"), record("B", "Beta"), record("A", "Again")]) {
        Err(AbbrError::Duplicate(a)) => assert_eq!(a, "A"),
        _ => panic!("expected a duplicate"),
    }
    let mut book = Book { items: Vec::new() };
    assert!(matches!(
        rewrite_book(vec![record("A", "x"), record("A", "y")], true, &mut book),
        Err(AbbrError::Duplicate(_))
    ));
}

#[test]
fn inline_links_with_the_abbr_protocol_are_not_abbreviations() {
    let mut book = Book { items: vec![BookItem::Chapter(chapter("[text](abbr:A)\n", "a.md", Vec::new()))] };
    rewrite_book(vec![record("A", "Alpha")], true, &mut book).unwrap();
    assert_eq!(book.items.len(), 1);
    assert_eq!(chapter_at(&book, 0).content, "[text](abbr:A)\n");
}

#[test]
fn abbreviations_of_the_documentation() {
    let mut book = Book {
        items: vec![BookItem::Chapter(chapter(
            "When writing a <abbr:CSV> file, make sure to escape double quotes with double quotes, and\n<abbr:CAB> to explain other concepts.\n",
            "abbr2.md",
            Vec::new(),
        ))],
    };
    rewrite_book(
        vec![
            record("CSV", "Comma Separated Value"),
            record("CAB", "Complicated Abbreviation with a very long description that's unsuitable for hover text"),
        ],
        true,
        &mut book,
    )
    .unwrap();
    assert_eq!(
        chapter_at(&book, 0).content,
        "When writing a [Comma Separated Value](ref:abbr-CSV) file, make sure to escape double quotes with double quotes, and\n[Complicated Abbreviation with a very long description that's unsuitable for hover text](ref:abbr-CAB) to explain other concepts.\n"
    );
    assert_eq!(
        chapter_at(&book, 2).content,
        "* [**CSV**: Comma Separated Value](label:abbr-CSV \"CSV\")\n* [**CAB**: Complicated Abbreviation with a very long description that's unsuitable for hover text](label:abbr-CAB \"CAB\")\n"
    );
}

#[test]
fn unknown_abbreviation_keeps_the_items() {
    let mut book = Book {
        items: vec![
            BookItem::Chapter(chapter("<abbr:A>\n", "a.md", Vec::new())),
            BookItem::Chapter(chapter("<abbr:X>\n", "b.md", Vec::new())),
            BookItem::Chapter(chapter("<abbr:A>\n", "c.md", Vec::new())),
        ],
    };
    assert!(matches!(rewrite_book(vec![record("A", "Alpha")], true, &mut book), Err(AbbrError::Unknown(_))));
    assert_eq!(book.items.len(), 3);
    assert_eq!(chapter_at(&book, 0).content, "[Alpha](ref:abbr-A)\n");
    assert_eq!(chapter_at(&book, 1).content, "<abbr:X>\n");
    assert_eq!(chapter_at(&book, 2).content, "<abbr:A>\n");
}

#[test]
fn duplicate_abbreviation_leaves_the_book_alone() {
    let mut book = Book { items: vec![BookItem::Chapter(chapter("<abbr:A>\n", "a.md", Vec::new()))] };
    assert!(rewrite_book(vec![record("A", "x"), record("A", "y")], true, &mut book).is_err());
    assert_eq!(book.items.len(), 1);
    assert_eq!(chapter_at(&book, 0).content, "<abbr:A>\n");
}
