//! The cross-reference preprocessor for whole books: labels must be
//! unique and references must name a label.
use vstd::prelude::*;
use crate::book::{Book, ItemView, items_view, same_outline};
use crate::crossref::{
    LabelScan, XrefError, XrefFailure, failure_matches, scan_labels, scan_refs,
    rewrite_and_scan_labels, rewrite_refs, book_label_ids, book_ref_ids, occurs_twice, lemma_strict_scan,
    no_crossref_links, lemma_scan_without_crossrefs,
};
use crate::extract::{LinkView, collect_links, extract_elements_recursively, link_map_new};
use crate::rewrite::{Rewrites, apply_items, rewrites_view, lemma_apply_empty_rewrites, lemma_apply_keeps_outline};

verus! {

/// What cross-referencing a book comes to.
pub enum XrefOutcome {
    /// The rewritten items of the book.
    Rewritten(Seq<ItemView>),
    /// A label defined twice or a reference to an unknown label.
    Failed(XrefFailure),
    /// The Markdown events of a chapter did not fit its source.
    Malformed,
}

/// Cross-referencing the items of a book: read the links of every chapter,
/// scan the labels, then the references (both strictly), then apply the
/// rewrites to the book.
pub open spec fn xref_book(items: Seq<crate::book::BookItem>) -> XrefOutcome {
    match collect_links(items, Seq::<(Seq<char>, Seq<LinkView>)>::empty()) {
        None => XrefOutcome::Malformed,
        Some(e) => match scan_labels(LabelScan { known: Map::empty(), rws: Map::empty() }, e, true) {
            Err(f) => XrefOutcome::Failed(f),
            Ok(st) => match scan_refs(st.known, st.rws, e, true) {
                Err(f) => XrefOutcome::Failed(f),
                Ok(rws) => match apply_items(rws, items_view(items)) {
                    None => XrefOutcome::Malformed,
                    Some(done) => XrefOutcome::Rewritten(done.1),
                },
            },
        },
    }
}

/// The preprocessor that resolves `label:` and `ref:` links of a book.
pub struct CrossrefPreprocessor;

impl CrossrefPreprocessor {
    /// Rewrites the labels and references of the book as [`xref_book`]
    /// says. Where a label is defined twice or a reference names no label,
    /// the book is left as it was.
    pub fn rewrite_book(book: &mut Book) -> (r: Result<(), XrefError>)
        ensures
            match xref_book(old(book).items@) {
                XrefOutcome::Rewritten(v) => r is Ok && final(book)@ == v,
                XrefOutcome::Failed(f) => r matches Err(e) && failure_matches(e, f) && final(book)@ == old(book)@,
                XrefOutcome::Malformed => r matches Err(XrefError::MalformedEvents),
            },
    {
        let mut map = link_map_new();
        if extract_elements_recursively(&book.items, &mut map).is_err() {
            return Err(XrefError::MalformedEvents);
        }
        let mut rewrites = Rewrites::default();
        assert(rewrites_view(rewrites@) =~= Map::<Seq<char>, Seq<crate::rewrite::RewriteView>>::empty());
        let crossrefs = rewrite_and_scan_labels(&mut rewrites, &map, true)?;
        rewrite_refs(&mut rewrites, &map, &crossrefs, true)?;
        if !rewrites.try_apply(&mut book.items) {
            return Err(XrefError::MalformedEvents);
        }
        Ok(())
    }
}

/// Every label id of the links `e` is defined once, and every reference
/// names one of them.
pub open spec fn references_resolve(e: Seq<(Seq<char>, Seq<LinkView>)>) -> bool {
    &&& book_label_ids(e).no_duplicates()
    &&& forall|k: int| 0 <= k < book_ref_ids(e).len() ==> book_label_ids(e).contains(#[trigger] book_ref_ids(e)[k])
}

/// Cross-referencing a book whose links can be read fails exactly when a
/// label id is defined twice or a reference names an id that no label
/// defines. A duplicate label is reported before any reference, and the
/// failure names the offending id.
pub proof fn lemma_xref_failure(items: Seq<crate::book::BookItem>)
    ensures
        collect_links(items, Seq::<(Seq<char>, Seq<LinkView>)>::empty()) matches Some(e) ==> (
            ((xref_book(items) is Failed) <==> !references_resolve(e))
            && (xref_book(items) matches XrefOutcome::Failed(XrefFailure::DuplicateLabel(id)) ==> occurs_twice(book_label_ids(e), id))
            && (xref_book(items) matches XrefOutcome::Failed(XrefFailure::UnknownReference(id)) ==> (
                book_label_ids(e).no_duplicates() && book_ref_ids(e).contains(id) && !book_label_ids(e).contains(id)))
        ),
{
    if let Some(e) = collect_links(items, Seq::<(Seq<char>, Seq<LinkView>)>::empty()) {
        lemma_strict_scan(Map::empty(), e);
        let st0 = LabelScan { known: Map::empty(), rws: Map::empty() };
        match scan_labels(st0, e, true) {
            Err(f) => {
                assert(!references_resolve(e));
            },
            Ok(st) => {
                match scan_refs(st.known, st.rws, e, true) {
                    Err(f) => {
                        if let XrefFailure::UnknownReference(id) = f {
                            let k = choose|k: int| 0 <= k < book_ref_ids(e).len() && book_ref_ids(e)[k] == id;
                            assert(!book_label_ids(e).contains(book_ref_ids(e)[k]));
                        }
                        assert(!references_resolve(e));
                    },
                    Ok(rws) => {},
                }
            },
        }
    }
}

/// Cross-referencing a book in which no link is a label or a reference
/// leaves the book as it is.
pub proof fn lemma_xref_without_crossrefs(items: Seq<crate::book::BookItem>)
    ensures
        collect_links(items, Seq::<(Seq<char>, Seq<LinkView>)>::empty()) matches Some(e) ==> (no_crossref_links(e)
            ==> xref_book(items) == XrefOutcome::Rewritten(items_view(items))),
{
    if let Some(e) = collect_links(items, Seq::<(Seq<char>, Seq<LinkView>)>::empty()) {
        if no_crossref_links(e) {
            let none = Map::<Seq<char>, Seq<crate::rewrite::RewriteView>>::empty();
            lemma_scan_without_crossrefs(none, e, true);
            let st = scan_labels(LabelScan { known: Map::empty(), rws: none }, e, true)->Ok_0;
            let r = scan_refs(st.known, st.rws, e, true)->Ok_0;
            lemma_apply_empty_rewrites(r, items_view(items));
        }
    }
}

/// Cross-referencing changes only the sources of chapters: the outline of
/// the book stays as it was.
pub proof fn lemma_xref_keeps_outline(items: Seq<crate::book::BookItem>)
    ensures
        xref_book(items) matches XrefOutcome::Rewritten(v) ==> same_outline(items_view(items), v),
{
    if let Some(e) = collect_links(items, Seq::<(Seq<char>, Seq<LinkView>)>::empty()) {
        if let Ok(st) = scan_labels(LabelScan { known: Map::empty(), rws: Map::empty() }, e, true) {
            if let Ok(rws) = scan_refs(st.known, st.rws, e, true) {
                lemma_apply_keeps_outline(rws, items_view(items));
            }
        }
    }
}

} // verus!
