//! The book that a preprocessor rewrites: chapters with their Markdown
//! sources, nested in summary order.
use vstd::prelude::*;

verus! {

/// A chapter of the book.
#[derive(Debug)]
pub struct Chapter {
    pub name: String,
    pub content: String,
    /// The section number, as its parts (`1.2.` is `[1, 2]`).
    pub number: Option<Vec<u32>>,
    pub sub_items: Vec<BookItem>,
    /// Where the chapter lives, relative to the summary; `None` for a draft.
    pub path: Option<String>,
    pub source_path: Option<String>,
    pub parent_names: Vec<String>,
}

/// An entry of the book's summary.
#[derive(Debug)]
pub enum BookItem {
    Chapter(Chapter),
    Separator,
    PartTitle(String),
}

/// A book: its items in summary order.
#[derive(Debug)]
pub struct Book {
    pub items: Vec<BookItem>,
}

/// What a chapter holds, as mathematical values.
pub struct ChapterView {
    pub name: Seq<char>,
    pub content: Seq<char>,
    pub number: Option<Seq<u32>>,
    pub sub_items: Seq<ItemView>,
    pub path: Option<Seq<char>>,
    pub source_path: Option<Seq<char>>,
    pub parent_names: Seq<Seq<char>>,
}

/// What an entry of the summary holds, as mathematical values.
pub enum ItemView {
    Chapter(ChapterView),
    Separator,
    PartTitle(Seq<char>),
}

pub open spec fn opt_string_view(o: Option<String>) -> Option<Seq<char>> {
    match o {
        Some(s) => Some(s@),
        None => None,
    }
}

pub open spec fn opt_vec_view(o: Option<Vec<u32>>) -> Option<Seq<u32>> {
    match o {
        Some(v) => Some(v@),
        None => None,
    }
}

pub open spec fn strings_view(v: Seq<String>) -> Seq<Seq<char>> {
    v.map_values(|s: String| s@)
}

pub open spec fn chapter_view(c: Chapter) -> ChapterView
    decreases c,
{
    ChapterView {
        name: c.name@,
        content: c.content@,
        number: opt_vec_view(c.number),
        sub_items: items_view(c.sub_items@),
        path: opt_string_view(c.path),
        source_path: opt_string_view(c.source_path),
        parent_names: strings_view(c.parent_names@),
    }
}

pub open spec fn item_view(i: BookItem) -> ItemView
    decreases i,
{
    match i {
        BookItem::Chapter(c) => ItemView::Chapter(chapter_view(c)),
        BookItem::Separator => ItemView::Separator,
        BookItem::PartTitle(t) => ItemView::PartTitle(t@),
    }
}

pub open spec fn items_view(items: Seq<BookItem>) -> Seq<ItemView>
    decreases items,
{
    if items.len() == 0 {
        seq![]
    } else {
        items_view(items.drop_last()).push(item_view(items.last()))
    }
}

impl View for Book {
    type V = Seq<ItemView>;

    open spec fn view(&self) -> Seq<ItemView> {
        items_view(self.items@)
    }
}

/// The view of items has one entry per item, and the view of a prefix is
/// the prefix of the view.
pub proof fn lemma_items_view_facts(s: Seq<BookItem>)
    ensures
        items_view(s).len() == s.len(),
        forall|i: int| 0 <= i < s.len() ==> #[trigger] items_view(s)[i] == item_view(s[i]),
        forall|j: int| 0 <= j <= s.len() ==> #[trigger] items_view(s.take(j)) == items_view(s).take(j),
    decreases s.len(),
{
    if s.len() > 0 {
        lemma_items_view_facts(s.drop_last());
        assert forall|j: int| 0 <= j <= s.len() implies #[trigger] items_view(s.take(j)) == items_view(s).take(j) by {
            if j == s.len() {
                assert(s.take(j) =~= s);
                assert(items_view(s).take(j) =~= items_view(s));
            } else {
                assert(s.take(j) =~= s.drop_last().take(j));
                assert(items_view(s).take(j) =~= items_view(s.drop_last()).take(j));
            }
        }
        assert forall|i: int| 0 <= i < s.len() implies #[trigger] items_view(s)[i] == item_view(s[i]) by {
            if i < s.len() - 1 {
                assert(items_view(s.drop_last())[i] == item_view(s.drop_last()[i]));
            }
        }
    } else {
        assert forall|j: int| 0 <= j <= s.len() implies #[trigger] items_view(s.take(j)) == items_view(s).take(j) by {
            assert(s.take(j) =~= s);
            assert(items_view(s).take(j) =~= items_view(s));
        }
    }
}

/// `b` has the items of `a` in the same order and of the same kinds, with
/// the same titles, and chapters with the same names, numbers, paths and
/// parents, at every depth: only the sources of chapters may differ.
pub open spec fn same_outline(a: Seq<ItemView>, b: Seq<ItemView>) -> bool
    decreases a,
{
    if a.len() != b.len() {
        false
    } else if a.len() == 0 {
        true
    } else {
        same_outline(a.drop_last(), b.drop_last()) && match a.last() {
            ItemView::Chapter(x) => match b.last() {
                ItemView::Chapter(y) => x.name == y.name && x.number == y.number && x.path == y.path
                    && x.source_path == y.source_path && x.parent_names == y.parent_names && same_outline(
                    x.sub_items,
                    y.sub_items,
                ),
                _ => false,
            },
            ItemView::Separator => b.last() is Separator,
            ItemView::PartTitle(t) => b.last() == ItemView::PartTitle(t),
        }
    }
}

/// Every outline is the same as itself.
pub proof fn lemma_same_outline_refl(a: Seq<ItemView>)
    ensures
        same_outline(a, a),
    decreases a,
{
    if a.len() > 0 {
        lemma_same_outline_refl(a.drop_last());
        if let ItemView::Chapter(x) = a.last() {
            assert(decreases_to!(a => a[a.len() - 1]));
            lemma_same_outline_refl(x.sub_items);
        }
    }
}

/// The view of two item lists one after the other is the two views one
/// after the other.
pub proof fn lemma_items_view_concat(a: Seq<BookItem>, b: Seq<BookItem>)
    ensures
        items_view(a + b) == items_view(a) + items_view(b),
    decreases b.len(),
{
    if b.len() == 0 {
        assert(a + b =~= a);
        assert(items_view(a) + items_view(b) =~= items_view(a));
    } else {
        lemma_items_view_concat(a, b.drop_last());
        assert((a + b).drop_last() =~= a + b.drop_last());
        assert((a + b).last() == b.last());
        assert(items_view(a) + items_view(b) =~= (items_view(a) + items_view(b.drop_last())).push(item_view(b.last())));
    }
}

/// The view of the items `done`, then `x`, then the items of `orig` after
/// place `k`.
pub proof fn lemma_items_view_resume(done: Seq<BookItem>, x: BookItem, orig: Seq<BookItem>, k: int)
    requires
        0 <= k < orig.len(),
    ensures
        items_view(done.push(x) + orig.skip(k + 1)) == items_view(done).push(item_view(x)) + items_view(orig).skip(k + 1),
{
    lemma_items_view_concat(done.push(x), orig.skip(k + 1));
    assert(done.push(x).drop_last() =~= done);
    lemma_items_view_concat(orig.take(k + 1), orig.skip(k + 1));
    assert(orig.take(k + 1) + orig.skip(k + 1) =~= orig);
    lemma_items_view_facts(orig.take(k + 1));
    lemma_items_view_facts(orig);
    assert(items_view(orig.skip(k + 1)) =~= items_view(orig).skip(k + 1));
}

} // verus!
