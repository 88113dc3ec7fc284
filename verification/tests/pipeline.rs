use mdbook_xref::abbr::{rewrite_book as rewrite_abbreviations, Abbreviation};
use mdbook_xref::assoc::StrMap;
use mdbook_xref::book::{Book, BookItem, Chapter};
use mdbook_xref::figure::number_figures;
use mdbook_xref::xref::CrossrefPreprocessor;

fn chapter(content: &str, path: &str) -> Chapter {
    Chapter {
        name: path.to_string(),
        content: content.to_string(),
        number: None,
        sub_items: Vec::new(),
        path: Some(path.to_string()),
        source_path: None,
        parent_names: Vec::new(),
    }
}

fn content_at(book: &Book, i: usize) -> String {
    match &book.items[i] {
        BookItem::Chapter(c) => c.content.clone(),
        _ => panic!("not a chapter"),
    }
}

#[test]
fn figures_can_be_referred_to_by_their_label() {
    let mut book = Book {
        items: vec![
            BookItem::Chapter(chapter("```figure fig-a\nA caption\nbody\n```\n", "figures.md")),
            BookItem::Chapter(chapter("As <ref:fig-a> shows.\n", "text.md")),
        ],
    };
    let mut counters = StrMap::new();
    number_figures(&mut book.items, &mut counters).unwrap();
    CrossrefPreprocessor::rewrite_book(&mut book).unwrap();
    assert_eq!(content_at(&book, 1), "As [Figure 1](/figures.md#fig-a) shows.\n");
    assert!(content_at(&book, 0).contains("<p class=\"figure-caption\">Figure 1: A caption</p>"));
}

#[test]
fn abbreviations_link_to_their_entries() {
    let mut book = Book { items: vec![BookItem::Chapter(chapter("A <abbr:CSV> file, another <abbr:CSV>.\n", "a.md"))] };
    let records = vec![Abbreviation { abbreviation: "CSV".to_string(), expanded: "Comma Separated Value".to_string() }];
    rewrite_abbreviations(records, true, &mut book).unwrap();
    CrossrefPreprocessor::rewrite_book(&mut book).unwrap();
    assert_eq!(
        content_at(&book, 0),
        "A [Comma Separated Value](/abbreviations.md#abbr-CSV) file, another [CSV](/abbreviations.md#abbr-CSV).\n"
    );
    assert!(content_at(&book, 2).starts_with("* <span id=\"abbr-CSV\">"));
}
