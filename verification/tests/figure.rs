use mdbook_xref::assoc::StrMap;
use mdbook_xref::book::{BookItem, Chapter};
use mdbook_xref::figure::{number_figures, FigureError};

fn chapter(name: &str, content: &str, sub_items: Vec<BookItem>) -> Chapter {
    Chapter {
        name: name.to_string(),
        content: content.to_string(),
        number: None,
        sub_items,
        path: Some(format!("{name}.md")),
        source_path: None,
        parent_names: Vec::new(),
    }
}

fn content_at(items: &Vec<BookItem>, i: usize) -> String {
    match &items[i] {
        BookItem::Chapter(c) => c.content.clone(),
        _ => panic!("not a chapter"),
    }
}

#[test]
fn figure_with_caption_is_numbered() {
    let mut items = vec![BookItem::Chapter(chapter("a", "```figure fig1\nA caption\nbody\n```", Vec::new()))];
    let mut counters = StrMap::new();
    number_figures(&mut items, &mut counters).unwrap();
    assert_eq!(
        content_at(&items, 0),
        "<div class=\"figure\" id=\"fig1\">\n\nbody\n\n\n<p class=\"figure-caption\">Figure 1: A caption</p>\n</div>\n\n[](label:fig1 \"Figure 1\")\n\n"
    );
    assert_eq!(counters.get("Figure"), Some(&1));
}

#[test]
fn figure_numbers_go_on_across_chapters() {
    let sub = chapter("b", "```figure f2\nSecond\nx\n```", Vec::new());
    let mut items = vec![
        BookItem::Chapter(chapter("a", "```figure f1\nFirst\nx\n```", vec![BookItem::Chapter(sub)])),
        BookItem::Chapter(chapter("c", "```figure f3\nThird\nx\n```", Vec::new())),
    ];
    let mut counters = StrMap::new();
    number_figures(&mut items, &mut counters).unwrap();
    assert!(content_at(&items, 0).contains("Figure 1: First"));
    match &items[0] {
        BookItem::Chapter(c) => match &c.sub_items[0] {
            BookItem::Chapter(s) => assert!(s.content.contains("[](label:f2 \"Figure 2\")")),
            _ => panic!("not a chapter"),
        },
        _ => panic!("not a chapter"),
    }
    assert!(content_at(&items, 1).contains("Figure 3: Third"));
    assert_eq!(counters.get("Figure"), Some(&3));
}

#[test]
fn figure_types_are_counted_apart() {
    let mut items = vec![BookItem::Chapter(chapter(
        "a",
        "```figure l1 Listing\nCode\nfn main() {}\n```\n\n```figure f1\nPicture\nx\n```\n\n```figure l2 Listing\nMore\ny\n```",
        Vec::new(),
    ))];
    let mut counters = StrMap::new();
    number_figures(&mut items, &mut counters).unwrap();
    let c = content_at(&items, 0);
    assert!(c.contains("Listing 1: Code"));
    assert!(c.contains("Figure 1: Picture"));
    assert!(c.contains("Listing 2: More"));
    assert_eq!(counters.get("Listing"), Some(&2));
    assert_eq!(counters.get("Figure"), Some(&1));
}

#[test]
fn figure_of_a_table_is_a_table() {
    let mut items = vec![BookItem::Chapter(chapter(
        "a",
        "```figure t1\nNumbers\n| a | b |\n|---|---|\n| 1 | 2 |\n```",
        Vec::new(),
    ))];
    let mut counters = StrMap::new();
    number_figures(&mut items, &mut counters).unwrap();
    let c = content_at(&items, 0);
    assert!(c.contains("<p class=\"figure-caption\">Table 1: Numbers</p>"));
    assert!(c.contains("[](label:t1 \"Table 1\")"));
}

#[test]
fn figure_without_caption_has_only_its_name() {
    let mut items = vec![BookItem::Chapter(chapter("a", "```figure f\n\nbody\n```", Vec::new()))];
    let mut counters = StrMap::new();
    number_figures(&mut items, &mut counters).unwrap();
    let c = content_at(&items, 0);
    assert!(c.contains("<p class=\"figure-caption\">Figure 1</p>"));
}

#[test]
fn other_code_blocks_are_kept() {
    let src = "```rust\nfn main() {}\n```\n";
    let mut items = vec![BookItem::Chapter(chapter("a", src, Vec::new()))];
    let mut counters = StrMap::new();
    number_figures(&mut items, &mut counters).unwrap();
    assert_eq!(content_at(&items, 0), src);
    assert_eq!(counters.len(), 0);
}

#[test]
fn figure_without_label_is_an_error() {
    let mut items = vec![BookItem::Chapter(chapter("Intro", "```figure\nx\n```", Vec::new()))];
    let mut counters = StrMap::new();
    match number_figures(&mut items, &mut counters) {
        Err(FigureError::MissingLabel(name)) => assert_eq!(name, "Intro"),
        _ => panic!("expected a missing label"),
    }
}

#[test]
fn figure_counter_at_its_limit_is_an_error() {
    let mut items = vec![BookItem::Chapter(chapter("a", "```figure f\nCaption\nx\n```", Vec::new()))];
    let mut counters = StrMap::new();
    counters.insert("Figure".to_string(), usize::MAX);
    assert!(matches!(number_figures(&mut items, &mut counters), Err(FigureError::CounterOverflow)));
}

#[test]
fn figure_counters_given_go_on() {
    let mut items = vec![BookItem::Chapter(chapter("a", "```figure f\nCaption\nx\n```", Vec::new()))];
    let mut counters = StrMap::new();
    counters.insert("Figure".to_string(), 4);
    number_figures(&mut items, &mut counters).unwrap();
    assert!(content_at(&items, 0).contains("Figure 5: Caption"));
    assert_eq!(counters.get("Figure"), Some(&5));
}

#[test]
fn empty_book_has_no_figures() {
    let mut items: Vec<BookItem> = Vec::new();
    let mut counters = StrMap::new();
    number_figures(&mut items, &mut counters).unwrap();
    assert!(items.is_empty());
    assert_eq!(counters.len(), 0);
}

#[test]
fn figure_of_the_documentation_with_its_own_type() {
    let src = "```figure a-label Optional Type\nThe first line is the description of the figure\n<center>\nThe rest describes its contents, which are rendered as\n\n**markdown** _in_ `the` final document.\n</center>\n```";
    let mut items = vec![BookItem::Chapter(chapter("figures", src, Vec::new()))];
    let mut counters = StrMap::new();
    number_figures(&mut items, &mut counters).unwrap();
    assert_eq!(
        content_at(&items, 0),
        "<div class=\"figure\" id=\"a-label\">\n\n<center>\nThe rest describes its contents, which are rendered as\n\n**markdown** _in_ `the` final document.\n</center>\n\n\n<p class=\"figure-caption\">Optional Type 1: The first line is the description of the figure</p>\n</div>\n\n[](label:a-label \"Optional Type 1\")\n\n"
    );
    assert_eq!(counters.get("Optional Type"), Some(&1));
}

#[test]
fn table_of_the_documentation_is_detected() {
    let src = "```figure a-table\na very fancy table\n| Column 1 | Column 2 |\n| :------- | :------- |\n| Value1   | Value2   |\n```";
    let mut items = vec![BookItem::Chapter(chapter("figures", src, Vec::new()))];
    let mut counters = StrMap::new();
    number_figures(&mut items, &mut counters).unwrap();
    let c = content_at(&items, 0);
    assert!(c.contains("<p class=\"figure-caption\">Table 1: a very fancy table</p>"));
    assert!(c.ends_with("[](label:a-table \"Table 1\")\n\n"));
}

#[test]
fn indented_description_is_the_whole_first_line() {
    let mut items = vec![BookItem::Chapter(chapter("a", "```figure a\n  Desc\nbody\n```", Vec::new()))];
    let mut counters = StrMap::new();
    number_figures(&mut items, &mut counters).unwrap();
    let c = content_at(&items, 0);
    assert!(c.starts_with("<div class=\"figure\" id=\"a\">\n\nbody\n\n"));
    assert!(c.contains("Figure 1: Desc"));
}

#[test]
fn figure_error_keeps_the_items() {
    let sub = chapter("b", "```figure f2\nSecond\nx\n```", Vec::new());
    let bad = chapter("bad", "```figure\nx\n```", Vec::new());
    let mut items = vec![
        BookItem::Chapter(chapter("a", "```figure f1\nFirst\nx\n```", vec![BookItem::Chapter(sub)])),
        BookItem::Chapter(bad),
        BookItem::Separator,
        BookItem::Chapter(chapter("c", "```figure f3\nThird\nx\n```", Vec::new())),
    ];
    let mut counters = StrMap::new();
    assert!(matches!(number_figures(&mut items, &mut counters), Err(FigureError::MissingLabel(_))));
    assert_eq!(items.len(), 4);
    assert!(content_at(&items, 0).contains("Figure 1: First"));
    assert_eq!(content_at(&items, 1), "```figure\nx\n```");
    assert!(matches!(items[2], BookItem::Separator));
    assert_eq!(content_at(&items, 3), "```figure f3\nThird\nx\n```");
}
