use indexmap::IndexMap;
use mdbook_xref::book::{BookItem, Chapter};
use mdbook_xref::extract::{extract_elements_recursively, Link};
use mdbook_xref::rewrite::Rewrites;
use mdbook_xref::typst::{extract_rest, Rewriter};

#[test]
fn to_book_path_of_a_relative_file_is_next_to_the_chapter() {
    let r = Rewriter { book_root: "/book/src".to_string() };
    assert_eq!(r.to_book_path("part/chapter.md", "fig.typ"), "/book/src/part/fig.typ");
    assert_eq!(r.to_book_path("chapter.md", "img/fig.typ"), "/book/src/img/fig.typ");
}

#[test]
fn to_book_path_of_an_absolute_file_is_under_the_root() {
    let r = Rewriter { book_root: "/book/src".to_string() };
    assert_eq!(r.to_book_path("part/chapter.md", "/shared/fig.typ"), "/book/src/shared/fig.typ");
}

#[test]
fn extract_rest_skips_the_prefix_and_white_space() {
    assert_eq!(extract_rest("typst", "typst  width=3"), Some("width=3"));
    assert_eq!(extract_rest("typst", "typst"), Some(""));
    assert_eq!(extract_rest("typst", "typstx"), Some("x"));
}

#[test]
fn create_typst_jobs_lists_the_typst_links() {
    let c = Chapter {
        name: "c".to_string(),
        content: "![a](typst:a.typ) [b](label:b) <typst:/b.typ>\n".to_string(),
        number: None,
        sub_items: Vec::new(),
        path: Some("dir/c.md".to_string()),
        source_path: None,
        parent_names: Vec::new(),
    };
    let items = vec![BookItem::Chapter(c)];
    let mut map: IndexMap<String, Vec<Link>> = IndexMap::new();
    extract_elements_recursively(&items, &mut map).unwrap();
    let r = Rewriter { book_root: "/root".to_string() };
    let jobs = r.create_typst_jobs(&map);
    assert_eq!(jobs.len(), 1);
    assert_eq!(jobs[0].path, "dir/c.md");
    assert_eq!(jobs[0].file, "/root/b.typ");
    assert_eq!(jobs[0].range.end - jobs[0].range.start, "<typst:/b.typ>".len());
}

#[test]
fn create_typst_rewrites_puts_each_rendering_at_its_link() {
    let content = "Before <typst:one.typ> middle <typst:/two.typ> after\n";
    let c = Chapter {
        name: "c".to_string(),
        content: content.to_string(),
        number: None,
        sub_items: Vec::new(),
        path: Some("c.md".to_string()),
        source_path: None,
        parent_names: Vec::new(),
    };
    let other = Chapter {
        name: "d".to_string(),
        content: "nothing\n".to_string(),
        number: None,
        sub_items: Vec::new(),
        path: Some("d.md".to_string()),
        source_path: None,
        parent_names: Vec::new(),
    };
    let mut items = vec![BookItem::Chapter(c), BookItem::Chapter(other)];
    let mut map: IndexMap<String, Vec<Link>> = IndexMap::new();
    extract_elements_recursively(&items, &mut map).unwrap();
    let r = Rewriter { book_root: "/root".to_string() };
    let jobs = r.create_typst_jobs(&map);
    assert_eq!(jobs.len(), 2);
    assert_eq!(jobs[0].file, "/root/one.typ");
    assert_eq!(jobs[1].file, "/root/two.typ");

    let mut rewrites = Rewrites::default();
    assert!(!r.create_typst_rewrites(&map, vec!["<svg/>".to_string()], &mut rewrites));
    assert!(rewrites.at("c.md".to_string()).is_empty());

    let mut rewrites = Rewrites::default();
    assert!(r.create_typst_rewrites(&map, vec!["<svg>1</svg>".to_string(), "<svg>2</svg>".to_string()], &mut rewrites));
    assert!(rewrites.at("d.md".to_string()).is_empty());
    assert!(rewrites.try_apply(&mut items));
    match &items[0] {
        BookItem::Chapter(c) => assert_eq!(c.content, "Before <svg>1</svg> middle <svg>2</svg> after\n"),
        _ => panic!("not a chapter"),
    }
    match &items[1] {
        BookItem::Chapter(c) => assert_eq!(c.content, "nothing\n"),
        _ => panic!("not a chapter"),
    }
}
