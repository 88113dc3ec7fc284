use indexmap::IndexMap;
use mdbook_xref::book::{BookItem, Chapter};
use mdbook_xref::extract::{extract_elements, extract_elements_recursively, Link, Url};

fn chapter(name: &str, content: &str, path: Option<&str>, sub_items: Vec<BookItem>) -> Chapter {
    Chapter {
        name: name.to_string(),
        content: content.to_string(),
        number: None,
        sub_items,
        path: path.map(|p| p.to_string()),
        source_path: None,
        parent_names: Vec::new(),
    }
}

#[test]
fn url_splits_at_the_first_colon() {
    let url = Url::new("label:a:b".to_string()).unwrap();
    assert_eq!(url.protocol(), "label");
    assert_eq!(url.value(), "a:b");
}

#[test]
fn url_without_colon_is_refused() {
    assert!(Url::new("chapter.md".to_string()).is_none());
}

#[test]
fn url_with_empty_parts() {
    let url = Url::new(":".to_string()).unwrap();
    assert_eq!(url.protocol(), "");
    assert_eq!(url.value(), "");
}

#[test]
fn link_new_keeps_its_fields() {
    let url = Url::new("ref:x".to_string()).unwrap();
    let link = Link::new(url, 3..9, "t".to_string(), Some("x".to_string()));
    assert_eq!(link.url.value(), "x");
    assert_eq!(link.full_range, 3..9);
    assert_eq!(link.title, "t");
    assert_eq!(link.text, Some("x".to_string()));
}

#[test]
fn extract_elements_reads_inline_links_and_autolinks() {
    let content = "See [the text](label:id \"sup\") and <ref:id> or [plain](other.md).";
    let c = chapter("c", content, Some("c.md"), Vec::new());
    let links = extract_elements(&c).unwrap();
    assert_eq!(links.len(), 2);
    assert_eq!(links[0].url.protocol(), "label");
    assert_eq!(links[0].url.value(), "id");
    assert_eq!(links[0].title, "sup");
    assert_eq!(links[0].text, Some("the text".to_string()));
    assert_eq!(&content[links[0].full_range.clone()], "[the text](label:id \"sup\")");
    assert_eq!(links[1].url.protocol(), "ref");
    assert_eq!(links[1].text, None);
    assert_eq!(&content[links[1].full_range.clone()], "<ref:id>");
}

#[test]
fn extract_elements_keeps_markup_of_the_text() {
    let content = "[a **bold** _text_](label:t)";
    let c = chapter("c", content, Some("c.md"), Vec::new());
    let links = extract_elements(&c).unwrap();
    assert_eq!(links.len(), 1);
    assert_eq!(links[0].text, Some("a **bold** _text_".to_string()));
    assert_eq!(links[0].title, "");
}

#[test]
fn extract_elements_recursively_walks_in_summary_order() {
    let inner = chapter("inner", "<ref:b>", Some("a/inner.md"), Vec::new());
    let draft_child = chapter("hidden", "<ref:h>", Some("hidden.md"), Vec::new());
    let draft = chapter("draft", "<ref:d>", None, vec![BookItem::Chapter(draft_child)]);
    let outer = chapter("outer", "[x](label:b)", Some("a.md"), vec![BookItem::Chapter(inner)]);
    let last = chapter("last", "no links", Some("z.md"), Vec::new());
    let items = vec![
        BookItem::Chapter(outer),
        BookItem::Separator,
        BookItem::Chapter(draft),
        BookItem::PartTitle("Part".to_string()),
        BookItem::Chapter(last),
    ];
    let mut map: IndexMap<String, Vec<Link>> = IndexMap::new();
    extract_elements_recursively(&items, &mut map).unwrap();
    let keys: Vec<&String> = map.keys().collect();
    assert_eq!(keys, vec!["a.md", "a/inner.md", "z.md"]);
    assert_eq!(map["a.md"].len(), 1);
    assert_eq!(map["a/inner.md"][0].url.value(), "b");
    assert!(map["z.md"].is_empty());
}

#[test]
fn link_without_text_has_none() {
    let content = "[](label:x \"S\") and [](ref:x)";
    let c = chapter("c", content, Some("c.md"), Vec::new());
    let links = extract_elements(&c).unwrap();
    assert_eq!(links.len(), 2);
    assert_eq!(links[0].text, None);
    assert_eq!(links[0].title, "S");
    assert_eq!(links[1].text, None);
}
