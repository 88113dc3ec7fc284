//! Abbreviations: `<abbr:X>` autolinks become references to an entry of an
//! abbreviations chapter appended to the book; the first use of each
//! abbreviation is written out in full.
use vstd::prelude::*;
use vstd::string::*;
use vstd::utf8::decode_utf8;
use std::ops::Range;
use crate::assoc::StrMap;
use crate::book::{Book, BookItem, Chapter, ChapterView, ItemView, items_view, item_view, chapter_view, lemma_items_view_facts, lemma_items_view_resume, same_outline};
use crate::markdown::{MdEventView, MdTag, MdTagView, markdown_events, md_event_view, md_events_view, parse_markdown};
use crate::rewrite::{Rewrite, RewriteView, rewrite_view, rws_view, splice, splice_ok, splice_content};
use crate::text::{utf8, str_eq};

verus! {

/// A record of the abbreviations file: an abbreviation and what it stands
/// for.
#[derive(Debug)]
pub struct Abbreviation {
    pub abbreviation: String,
    pub expanded: String,
}

/// Why the abbreviations could not be applied.
#[derive(Debug)]
pub enum AbbrError {
    /// An abbreviation is defined more than once.
    Duplicate(String),
    /// An abbreviation is used but not defined.
    Unknown(String),
    /// The Markdown events of a chapter did not fit its source.
    MalformedEvents,
}

/// The failures that the specification foresees.
pub enum AbbrFailure {
    Duplicate(Seq<char>),
    Unknown(Seq<char>),
    Malformed,
}

pub open spec fn abbr_failure_matches(e: AbbrError, f: AbbrFailure) -> bool {
    match (e, f) {
        (AbbrError::Duplicate(a), AbbrFailure::Duplicate(b)) => a@ == b,
        (AbbrError::Unknown(a), AbbrFailure::Unknown(b)) => a@ == b,
        (AbbrError::MalformedEvents, AbbrFailure::Malformed) => true,
        _ => false,
    }
}

pub open spec fn record_views(r: Seq<Abbreviation>) -> Seq<(Seq<char>, Seq<char>)> {
    r.map_values(|a: Abbreviation| (a.abbreviation@, a.expanded@))
}

pub open spec fn strings_map_view(m: Map<Seq<char>, String>) -> Map<Seq<char>, Seq<char>> {
    Map::new(|k: Seq<char>| m.contains_key(k), |k: Seq<char>| m[k]@)
}

/// The table of abbreviations that the records define, or the first
/// abbreviation that a record defines again.
pub open spec fn abbreviation_table(records: Seq<(Seq<char>, Seq<char>)>) -> Result<Map<Seq<char>, Seq<char>>, Seq<char>>
    decreases records.len(),
{
    if records.len() == 0 {
        Ok(Map::empty())
    } else {
        match abbreviation_table(records.drop_last()) {
            Err(a) => Err(a),
            Ok(m) => {
                let (a, e) = records.last();
                if m.contains_key(a) {
                    Err(a)
                } else {
                    Ok(m.insert(a, e))
                }
            },
        }
    }
}

proof fn lemma_table_err(records: Seq<(Seq<char>, Seq<char>)>, i: int)
    requires
        0 <= i <= records.len(),
        abbreviation_table(records.take(i)) is Err,
    ensures
        abbreviation_table(records) == abbreviation_table(records.take(i)),
    decreases records.len(),
{
    if i == records.len() {
        assert(records.take(i) =~= records);
    } else {
        assert(records.drop_last().take(i) =~= records.take(i));
        lemma_table_err(records.drop_last(), i);
    }
}

/// The table is built exactly when no two records define the same
/// abbreviation, whatever their expansions; it then maps the abbreviation
/// of every record to its expansion and knows no other. A failure names an
/// abbreviation that two records define.
pub proof fn lemma_abbreviation_table(records: Seq<(Seq<char>, Seq<char>)>)
    ensures
        (abbreviation_table(records) is Ok) <==> forall|i: int, j: int|
            0 <= i < j < records.len() ==> #[trigger] records[i].0 != #[trigger] records[j].0,
        abbreviation_table(records) matches Ok(m) ==> (forall|i: int|
            0 <= i < records.len() ==> m.contains_key(#[trigger] records[i].0) && m[records[i].0] == records[i].1)
            && (forall|a: Seq<char>| m.contains_key(a) ==> exists|i: int| 0 <= i < records.len() && #[trigger] records[i].0 == a),
        abbreviation_table(records) matches Err(a) ==> exists|i: int, j: int|
            0 <= i < j < records.len() && #[trigger] records[i].0 == a && #[trigger] records[j].0 == a,
    decreases records.len(),
{
    if records.len() > 0 {
        let p = records.drop_last();
        let n = records.len() - 1;
        lemma_abbreviation_table(p);
        assert forall|i: int| 0 <= i < n implies records[i] == p[i] by {}
        match abbreviation_table(p) {
            Err(a) => {
                let (i, j) = choose|i: int, j: int| 0 <= i < j < p.len() && p[i].0 == a && p[j].0 == a;
                assert(records[i].0 == a && records[j].0 == a);
            },
            Ok(m) => {
                let (a, e) = records.last();
                if m.contains_key(a) {
                    let i = choose|i: int| 0 <= i < p.len() && p[i].0 == a;
                    assert(records[i].0 == a && records[n].0 == a);
                } else {
                    assert forall|i: int, j: int| 0 <= i < j < records.len() implies #[trigger] records[i].0 != #[trigger] records[j].0 by {
                        if j == n {
                            assert(m.contains_key(p[i].0));
                        } else {
                            assert(p[i].0 != p[j].0);
                        }
                    }
                    let m2 = m.insert(a, e);
                    assert forall|i: int| 0 <= i < records.len() implies m2.contains_key(#[trigger] records[i].0) && m2[records[i].0] == records[i].1 by {
                        if i < n {
                            assert(m.contains_key(p[i].0));
                        }
                    }
                    assert forall|b: Seq<char>| m2.contains_key(b) implies exists|i: int| 0 <= i < records.len() && #[trigger] records[i].0 == b by {
                        if b == a {
                            assert(records[n].0 == b);
                        } else {
                            let i = choose|i: int| 0 <= i < p.len() && #[trigger] p[i].0 == b;
                            assert(records[i].0 == b);
                        }
                    }
                }
            },
        }
    }
}

/// Builds the table of abbreviations as [`abbreviation_table`] says.
pub fn build_abbreviations(records: Vec<Abbreviation>) -> (r: Result<StrMap<String>, AbbrError>)
    ensures
        match abbreviation_table(record_views(records@)) {
            Ok(m) => r matches Ok(t) && t.wf() && strings_map_view(t.map()) == m,
            Err(a) => r matches Err(AbbrError::Duplicate(s)) && s@ == a,
        },
{
    let ghost rv = record_views(records@);
    let mut table: StrMap<String> = StrMap::new();
    let mut i: usize = 0;
    assert(rv.take(0) =~= Seq::<(Seq<char>, Seq<char>)>::empty());
    assert(strings_map_view(table.map()) =~= Map::<Seq<char>, Seq<char>>::empty());
    while i < records.len()
        invariant
            i <= records@.len(),
            rv == record_views(records@),
            table.wf(),
            abbreviation_table(rv.take(i as int)) == Ok::<Map<Seq<char>, Seq<char>>, Seq<char>>(
                strings_map_view(table.map()),
            ),
        decreases records@.len() - i,
    {
        let record = &records[i];
        proof {
            assert(rv.take(i + 1).drop_last() =~= rv.take(i as int));
            assert(rv.take(i + 1).last() == (record.abbreviation@, record.expanded@));
        }
        let ghost before = table.map();
        let previous = table.insert(record.abbreviation.clone(), record.expanded.clone());
        if previous.is_some() {
            proof {
                lemma_table_err(rv, i + 1);
            }
            return Err(AbbrError::Duplicate(record.abbreviation.clone()));
        }
        assert(strings_map_view(table.map()) =~= strings_map_view(before).insert(
            record.abbreviation@,
            record.expanded@,
        ));
        i = i + 1;
    }
    assert(rv.take(i as int) =~= rv);
    Ok(table)
}

/// The abbreviation that an autolink destination names: what follows
/// `abbr:`.
pub open spec fn abbr_of(dest: Seq<char>) -> Option<Seq<char>> {
    if "abbr:"@.is_prefix_of(dest) {
        Some(dest.skip("abbr:"@.len() as int))
    } else {
        None
    }
}

/// What the use of `a` becomes: its expansion linked to its entry the first
/// time, a reference to its entry afterwards.
pub open spec fn abbr_replacement(full: Seq<char>, a: Seq<char>, first: bool) -> Seq<char> {
    if first {
        "["@ + full + "](ref:abbr-"@ + a + ")"@
    } else {
        "<ref:abbr-"@ + a + ">"@
    }
}

/// Reading the events of a chapter: the abbreviations used so far (in the
/// order of their first use) and the rewrites of the chapter, or the first
/// unknown abbreviation.
pub open spec fn abbr_events(
    abbrs: Map<Seq<char>, Seq<char>>,
    used: Seq<Seq<char>>,
    ev: Seq<MdEventView>,
) -> Result<(Seq<Seq<char>>, Seq<RewriteView>), Seq<char>>
    decreases ev.len(),
{
    if ev.len() == 0 {
        Ok((used, seq![]))
    } else {
        match abbr_events(abbrs, used, ev.drop_last()) {
            Err(a) => Err(a),
            Ok((u, rws)) => {
                let e = ev.last();
                match e.tag {
                    MdTagView::Link { autolink: true, dest_url, .. } => match abbr_of(dest_url) {
                        None => Ok((u, rws)),
                        Some(a) => if !abbrs.contains_key(a) {
                            Err(a)
                        } else {
                            let first = !u.contains(a);
                            Ok(
                                (
                                    if first { u.push(a) } else { u },
                                    rws.push(
                                        RewriteView {
                                            start: e.start,
                                            end: e.end,
                                            replacement: abbr_replacement(abbrs[a], a, first),
                                        },
                                    ),
                                ),
                            )
                        },
                    },
                    _ => Ok((u, rws)),
                }
            },
        }
    }
}

/// Rewriting the abbreviations of every chapter of `items` in summary
/// order, through all nested items. On a failure, the items as far as they
/// got: the chapters before the failing one rewritten, the failing one and
/// all after it as they were (the failing one with its own source rewritten
/// where the failure lies in its nested items).
pub open spec fn abbr_items(
    abbrs: Map<Seq<char>, Seq<char>>,
    used: Seq<Seq<char>>,
    items: Seq<ItemView>,
) -> Result<(Seq<Seq<char>>, Seq<ItemView>), (AbbrFailure, Seq<ItemView>)>
    decreases items,
{
    if items.len() == 0 {
        Ok((used, seq![]))
    } else {
        match abbr_items(abbrs, used, items.drop_last()) {
            Err((f, part)) => Err((f, part.push(items.last()))),
            Ok((u1, done)) => match items.last() {
                ItemView::Chapter(c) => match abbr_events(abbrs, u1, markdown_events(c.content)) {
                    Err(a) => Err((AbbrFailure::Unknown(a), done.push(items.last()))),
                    Ok((u2, rws)) => if !splice_ok(utf8(c.content), rws, 0, false) {
                        Err((AbbrFailure::Malformed, done.push(items.last())))
                    } else {
                        let content = decode_utf8(splice(utf8(c.content), rws, 0));
                        match abbr_items(abbrs, u2, c.sub_items) {
                            Err((f, subs)) => Err(
                                (f, done.push(ItemView::Chapter(ChapterView { content: content, sub_items: subs, ..c }))),
                            ),
                            Ok((u3, subs)) => Ok(
                                (u3, done.push(ItemView::Chapter(ChapterView { content: content, sub_items: subs, ..c }))),
                            ),
                        }
                    },
                },
                other => Ok((u1, done.push(other))),
            },
        }
    }
}

proof fn lemma_abbr_events_err(
    abbrs: Map<Seq<char>, Seq<char>>,
    used: Seq<Seq<char>>,
    ev: Seq<MdEventView>,
    i: int,
)
    requires
        0 <= i <= ev.len(),
        abbr_events(abbrs, used, ev.take(i)) is Err,
    ensures
        abbr_events(abbrs, used, ev) == abbr_events(abbrs, used, ev.take(i)),
    decreases ev.len(),
{
    if i == ev.len() {
        assert(ev.take(i) =~= ev);
    } else {
        assert(ev.drop_last().take(i) =~= ev.take(i));
        lemma_abbr_events_err(abbrs, used, ev.drop_last(), i);
    }
}

proof fn lemma_abbr_items_err(
    abbrs: Map<Seq<char>, Seq<char>>,
    used: Seq<Seq<char>>,
    items: Seq<ItemView>,
    i: int,
)
    requires
        0 <= i <= items.len(),
        abbr_items(abbrs, used, items.take(i)) is Err,
    ensures
        abbr_items(abbrs, used, items) == Err::<(Seq<Seq<char>>, Seq<ItemView>), (AbbrFailure, Seq<ItemView>)>(
            (abbr_items(abbrs, used, items.take(i))->Err_0.0, abbr_items(abbrs, used, items.take(i))->Err_0.1 + items.skip(i)),
        ),
    decreases items.len(),
{
    let (f, part) = abbr_items(abbrs, used, items.take(i))->Err_0;
    if i == items.len() {
        assert(items.take(i) =~= items);
        assert(part + items.skip(i) =~= part);
    } else {
        assert(items.drop_last().take(i) =~= items.take(i));
        lemma_abbr_items_err(abbrs, used, items.drop_last(), i);
        assert((part + items.drop_last().skip(i)).push(items.last()) =~= part + items.skip(i));
    }
}

fn owned(s: &str) -> (r: String)
    ensures
        r@ == s@,
{
    s.to_owned()
}

/// The rewrites of one chapter source, as [`abbr_events`] says.
fn chapter_abbreviations(
    abbrs: &StrMap<String>,
    used: &mut StrMap<()>,
    content: &str,
) -> (r: Result<Vec<Rewrite>, AbbrError>)
    requires
        abbrs.wf(),
        old(used).wf(),
    ensures
        final(used).wf(),
        match abbr_events(strings_map_view(abbrs.map()), old(used).keys(), markdown_events(content@)) {
            Ok((u, rws)) => r matches Ok(v) && rws_view(v@) == rws && final(used).keys() == u,
            Err(a) => r matches Err(AbbrError::Unknown(s)) && s@ == a,
        },
{
    let events = parse_markdown(content);
    let ghost ev = md_events_view(events@);
    let ghost am = strings_map_view(abbrs.map());
    let ghost u0 = used.keys();
    let mut out: Vec<Rewrite> = Vec::new();
    let mut i: usize = 0;
    proof {
        reveal_strlit("abbr:");
        assert(ev.take(0) =~= Seq::<MdEventView>::empty());
        assert(rws_view(out@) =~= Seq::<RewriteView>::empty());
    }
    while i < events.len()
        invariant
            i <= ev.len(),
            ev == md_events_view(events@),
            ev == markdown_events(content@),
            am == strings_map_view(abbrs.map()),
            u0 == old(used).keys(),
            abbrs.wf(),
            used.wf(),
            abbr_events(am, u0, ev.take(i as int)) == Ok::<(Seq<Seq<char>>, Seq<RewriteView>), Seq<char>>(
                (used.keys(), rws_view(out@)),
            ),
        decreases ev.len() - i,
    {
        let event = &events[i];
        proof {
            reveal_strlit("abbr:");
            assert(ev.take(i + 1).drop_last() =~= ev.take(i as int));
            assert(ev.take(i + 1).last() == md_event_view(*event));
        }
        match &event.tag {
            MdTag::Link { autolink: true, dest_url, .. } => {
                let dest = dest_url.as_str();
                let n = dest.unicode_len();
                if n >= 5 && str_eq(dest.substring_char(0, 5), "abbr:") {
                    let abbr = dest.substring_char(5, n);
                    proof {
                        assert("abbr:"@.is_prefix_of(dest@));
                        assert(abbr_of(dest@) == Some(abbr@));
                    }
                    match abbrs.get(abbr) {
                        None => {
                            proof {
                                lemma_abbr_events_err(am, u0, ev, i + 1);
                            }
                            return Err(AbbrError::Unknown(owned(abbr)));
                        },
                        Some(full) => {
                            proof {
                                used.lemma_keys();
                            }
                            let ghost before = used.keys();
                            let first = used.insert(owned(abbr), ()).is_none();
                            let mut replacement = String::new();
                            if first {
                                replacement.append("[");
                                replacement.append(full.as_str());
                                replacement.append("](ref:abbr-");
                                replacement.append(abbr);
                                replacement.append(")");
                            } else {
                                replacement.append("<ref:abbr-");
                                replacement.append(abbr);
                                replacement.append(">");
                            }
                            assert(replacement@ =~= abbr_replacement(am[abbr@], abbr@, first));
                            let rw = Rewrite {
                                range: Range { start: event.start, end: event.end },
                                replacement,
                            };
                            let ghost prev = out@;
                            out.push(rw);
                            assert(rws_view(out@) =~= rws_view(prev).push(rewrite_view(rw)));
                        },
                    }
                } else {
                    proof {
                        if "abbr:"@.is_prefix_of(dest@) {
                            assert(n >= 5);
                            assert(dest@.subrange(0, 5) =~= "abbr:"@);
                        }
                        assert(abbr_of(dest@) is None);
                    }
                }
            },
            _ => {},
        }
        i = i + 1;
    }
    assert(ev.take(i as int) =~= ev);
    Ok(out)
}

/// Every abbreviation in `used` is defined.
pub open spec fn all_defined(abbrs: Map<Seq<char>, Seq<char>>, used: Seq<Seq<char>>) -> bool {
    forall|i: int| 0 <= i < used.len() ==> abbrs.contains_key(#[trigger] used[i])
}

proof fn lemma_abbr_events_defined(abbrs: Map<Seq<char>, Seq<char>>, used: Seq<Seq<char>>, ev: Seq<MdEventView>)
    requires
        all_defined(abbrs, used),
    ensures
        abbr_events(abbrs, used, ev) matches Ok((u, _)) ==> all_defined(abbrs, u),
    decreases ev.len(),
{
    if ev.len() > 0 {
        lemma_abbr_events_defined(abbrs, used, ev.drop_last());
        if let Ok((u, rws)) = abbr_events(abbrs, used, ev.drop_last()) {
            if let Ok((u2, _)) = abbr_events(abbrs, used, ev) {
                assert forall|i: int| 0 <= i < u2.len() implies abbrs.contains_key(#[trigger] u2[i]) by {
                    if i < u.len() {
                        assert(u2[i] == u[i]);
                    }
                }
            }
        }
    }
}

/// Every abbreviation that rewriting records as used is defined.
pub proof fn lemma_abbr_items_defined(abbrs: Map<Seq<char>, Seq<char>>, used: Seq<Seq<char>>, items: Seq<ItemView>)
    requires
        all_defined(abbrs, used),
    ensures
        abbr_items(abbrs, used, items) matches Ok((u, _)) ==> all_defined(abbrs, u),
    decreases items,
{
    if items.len() > 0 {
        lemma_abbr_items_defined(abbrs, used, items.drop_last());
        if let Ok((u1, done)) = abbr_items(abbrs, used, items.drop_last()) {
            if let ItemView::Chapter(c) = items.last() {
                lemma_abbr_events_defined(abbrs, u1, markdown_events(c.content));
                if let Ok((u2, rws)) = abbr_events(abbrs, u1, markdown_events(c.content)) {
                    lemma_abbr_items_defined(abbrs, u2, c.sub_items);
                }
            }
        }
    }
}

/// The rewrite `r` writes the long or the short form of an abbreviation
/// that `u` lists.
pub open spec fn writes_listed_abbreviation(abbrs: Map<Seq<char>, Seq<char>>, u: Seq<Seq<char>>, r: RewriteView) -> bool {
    exists|a: Seq<char>|
        #![trigger u.contains(a)]
        u.contains(a) && abbrs.contains_key(a) && (r.replacement == abbr_replacement(abbrs[a], a, true)
            || r.replacement == abbr_replacement(abbrs[a], a, false))
}

/// Reading the events of a chapter keeps the abbreviations used before at
/// the front of the list and adds each new one once; every rewrite it makes
/// writes an abbreviation of the list, whose entry the abbreviations
/// chapter therefore holds.
pub proof fn lemma_abbr_events_uses(abbrs: Map<Seq<char>, Seq<char>>, used: Seq<Seq<char>>, ev: Seq<MdEventView>)
    requires
        used.no_duplicates(),
    ensures
        abbr_events(abbrs, used, ev) matches Ok((u, rws)) ==> (u.no_duplicates() && used.is_prefix_of(u)
            && forall|k: int| 0 <= k < rws.len() ==> writes_listed_abbreviation(abbrs, u, #[trigger] rws[k])),
    decreases ev.len(),
{
    if ev.len() > 0 {
        lemma_abbr_events_uses(abbrs, used, ev.drop_last());
        if let Ok((u, rws)) = abbr_events(abbrs, used, ev.drop_last()) {
            if let Ok((u2, rws2)) = abbr_events(abbrs, used, ev) {
                assert forall|x: Seq<char>| u.contains(x) implies u2.contains(x) by {
                    let i = choose|i: int| 0 <= i < u.len() && u[i] == x;
                    if u2 != u {
                        assert(u2[i] == u[i]);
                    }
                }
                assert(used.is_prefix_of(u2)) by {
                    if u2 != u {
                        assert(u2.subrange(0, used.len() as int) =~= u.subrange(0, used.len() as int));
                    }
                }
                if u2 != u {
                    let a = u2.last();
                    assert(u2 == u.push(a));
                    assert(!u.contains(a));
                    assert forall|i: int, j: int| 0 <= i < u2.len() && 0 <= j < u2.len() && i != j implies u2[i] != u2[j] by {
                        if i == u.len() {
                            assert(u[j] != a);
                        } else if j == u.len() {
                            assert(u[i] != a);
                        }
                    }
                }
                assert forall|k: int| 0 <= k < rws2.len() implies writes_listed_abbreviation(abbrs, u2, #[trigger] rws2[k]) by {
                    if rws2 != rws && k == rws.len() {
                        let e = ev.last();
                        if let MdTagView::Link { autolink: true, dest_url, .. } = e.tag {
                            if let Some(a) = abbr_of(dest_url) {
                                assert(u2.contains(a)) by {
                                    if u.contains(a) {
                                    } else {
                                        assert(u2[u2.len() - 1] == a);
                                    }
                                }
                            }
                        }
                    } else {
                        if rws2 != rws {
                            assert(rws2[k] == rws[k]);
                        }
                        assert(writes_listed_abbreviation(abbrs, u, rws[k]));
                        let a = choose|a: Seq<char>| u.contains(a) && abbrs.contains_key(a) && (rws[k].replacement
                            == abbr_replacement(abbrs[a], a, true) || rws[k].replacement == abbr_replacement(abbrs[a], a, false));
                        assert(u2.contains(a));
                    }
                }
            }
        }
    }
}

/// Rewriting the abbreviations of a book keeps the abbreviations used
/// before at the front of the list and adds each new one once: the
/// abbreviations chapter lists each used abbreviation exactly once, in the
/// order of first use.
pub proof fn lemma_abbr_items_uses(abbrs: Map<Seq<char>, Seq<char>>, used: Seq<Seq<char>>, items: Seq<ItemView>)
    requires
        used.no_duplicates(),
    ensures
        abbr_items(abbrs, used, items) matches Ok((u, _)) ==> u.no_duplicates() && used.is_prefix_of(u),
    decreases items,
{
    if items.len() > 0 {
        lemma_abbr_items_uses(abbrs, used, items.drop_last());
        if let Ok((u1, done)) = abbr_items(abbrs, used, items.drop_last()) {
            if let ItemView::Chapter(c) = items.last() {
                lemma_abbr_events_uses(abbrs, u1, markdown_events(c.content));
                if let Ok((u2, rws)) = abbr_events(abbrs, u1, markdown_events(c.content)) {
                    assert(decreases_to!(items => items[items.len() - 1]));
                    lemma_abbr_items_uses(abbrs, u2, c.sub_items);
                    if let Ok((u3, subs)) = abbr_items(abbrs, u2, c.sub_items) {
                        assert(used.is_prefix_of(u3)) by {
                            assert(u3.subrange(0, used.len() as int) =~= u2.subrange(0, u1.len() as int).subrange(0, used.len() as int));
                        }
                    }
                }
            }
        }
    }
}

/// Rewrites the abbreviations of every chapter of `items`, in summary order
/// and through all nested items, as [`abbr_items`] says; `used` gathers the
/// abbreviations in the order of their first use.
pub fn do_rewrite(
    abbrs: &StrMap<String>,
    used: &mut StrMap<()>,
    items: &mut Vec<BookItem>,
) -> (r: Result<(), AbbrError>)
    requires
        abbrs.wf(),
        old(used).wf(),
    ensures
        final(used).wf(),
        match abbr_items(strings_map_view(abbrs.map()), old(used).keys(), items_view(old(items)@)) {
            Ok((u, v)) => r is Ok && final(used).keys() == u && items_view(final(items)@) == v,
            Err((f, v)) => r matches Err(e) && abbr_failure_matches(e, f) && items_view(final(items)@) == v,
        },
    decreases old(items)@,
{
    let mut rest: Vec<BookItem> = Vec::new();
    std::mem::swap(items, &mut rest);
    let ghost orig = rest@;
    let ghost am = strings_map_view(abbrs.map());
    let ghost u0 = used.keys();
    let ghost mut k: int = 0;
    proof {
        lemma_items_view_facts(orig);
        assert(orig.take(0) =~= Seq::<BookItem>::empty());
        assert(items@ =~= Seq::<BookItem>::empty());
    }
    while rest.len() > 0
        invariant
            0 <= k <= orig.len(),
            k + rest@.len() == orig.len(),
            rest@ == orig.skip(k),
            old(items)@ == orig,
            am == strings_map_view(abbrs.map()),
            u0 == old(used).keys(),
            abbrs.wf(),
            used.wf(),
            items_view(orig).len() == orig.len(),
            forall|i: int| 0 <= i < orig.len() ==> #[trigger] items_view(orig)[i] == item_view(orig[i]),
            forall|j: int| 0 <= j <= orig.len() ==> #[trigger] items_view(orig.take(j)) == items_view(orig).take(j),
            abbr_items(am, u0, items_view(orig.take(k))) == Ok::<(Seq<Seq<char>>, Seq<ItemView>), (AbbrFailure, Seq<ItemView>)>(
                (used.keys(), items_view(items@)),
            ),
        decreases rest@.len(),
    {
        let item = rest.remove(0);
        let ghost prev_items = items@;
        assert(rest@ =~= orig.skip(k + 1));
        let ghost u1 = used.keys();
        let ghost iv = items_view(orig).take(k + 1);
        proof {
            assert(orig[k] == item);
            assert(iv.drop_last() =~= items_view(orig).take(k));
            assert(iv.last() == item_view(item));
            assert(items_view(orig.take(k + 1)) == iv);
        }
        match item {
            BookItem::Chapter(mut c) => {
                let ghost c0 = c;
                let ghost cv = chapter_view(c0);
                assert(iv.last() == ItemView::Chapter(cv));
                let rws = match chapter_abbreviations(abbrs, used, c.content.as_str()) {
                    Ok(rws) => rws,
                    Err(e) => {
                        let ghost done = items@;
                        items.push(BookItem::Chapter(c));
                        items.append(&mut rest);
                        proof {
                            lemma_abbr_items_err(am, u0, items_view(orig), k + 1);
                            lemma_items_view_resume(done, BookItem::Chapter(c), orig, k);
                        }
                        return Err(e);
                    },
                };
                match splice_content(c.content.as_str(), &rws, false) {
                    Some(out) => {
                        c.content = out;
                        proof {
                            vstd::utf8::encode_utf8_decode_utf8(c.content@);
                        }
                    },
                    None => {
                        let ghost done = items@;
                        items.push(BookItem::Chapter(c));
                        items.append(&mut rest);
                        proof {
                            lemma_abbr_items_err(am, u0, items_view(orig), k + 1);
                            lemma_items_view_resume(done, BookItem::Chapter(c), orig, k);
                        }
                        return Err(AbbrError::MalformedEvents);
                    },
                }
                proof {
                    assert(decreases_to!(orig => orig[k]));
                    assert(decreases_to!(orig[k] => c0));
                    assert(decreases_to!(c0 => c0.sub_items));
                    assert(decreases_to!(c0.sub_items => c0.sub_items@));
                    assert(c.sub_items == c0.sub_items);
                    assert(decreases_to!(old(items)@ => c.sub_items@));
                }
                match do_rewrite(abbrs, used, &mut c.sub_items) {
                    Ok(()) => {},
                    Err(e) => {
                        proof {
                            assert(item_view(BookItem::Chapter(c)) == ItemView::Chapter(
                                ChapterView { content: c.content@, sub_items: items_view(c.sub_items@), ..cv },
                            ));
                        }
                        let ghost done = items@;
                        items.push(BookItem::Chapter(c));
                        items.append(&mut rest);
                        proof {
                            lemma_abbr_items_err(am, u0, items_view(orig), k + 1);
                            lemma_items_view_resume(done, BookItem::Chapter(c), orig, k);
                        }
                        return Err(e);
                    },
                }
                proof {
                    assert(item_view(BookItem::Chapter(c)) == ItemView::Chapter(
                        ChapterView { content: c.content@, sub_items: items_view(c.sub_items@), ..cv },
                    ));
                }
                items.push(BookItem::Chapter(c));
                proof {
                    assert(items@.drop_last() =~= prev_items);
                }
            },
            other => {
                items.push(other);
                proof {
                    assert(items@.drop_last() =~= prev_items);
                }
            },
        }
        proof {
            k = k + 1;
            assert(rest@ =~= orig.skip(k));
        }
    }
    proof {
        assert(orig.take(k) =~= orig);
        assert(items_view(orig).take(k) =~= items_view(orig));
    }
    Ok(())
}

/// The entry of the abbreviations chapter for `a`: a list item that is a
/// label `abbr-{a}` with the supplement `a`.
pub open spec fn abbr_entry(a: Seq<char>, full: Seq<char>) -> Seq<char> {
    "* [**"@ + a + "**: "@ + full + "](label:abbr-"@ + a + " \""@ + a + "\")"@ + "\n"@
}

/// The source of the abbreviations chapter: one entry per used
/// abbreviation, in the order given.
pub open spec fn abbr_page(abbrs: Map<Seq<char>, Seq<char>>, used: Seq<Seq<char>>) -> Seq<char>
    decreases used.len(),
{
    if used.len() == 0 {
        seq![]
    } else {
        abbr_page(abbrs, used.drop_last()) + abbr_entry(used.last(), abbrs[used.last()])
    }
}

/// The abbreviations chapter.
pub open spec fn abbr_chapter_view(abbrs: Map<Seq<char>, Seq<char>>, used: Seq<Seq<char>>) -> ChapterView {
    ChapterView {
        name: "Abbreviations"@,
        content: abbr_page(abbrs, used),
        number: None,
        sub_items: seq![],
        path: Some("abbreviations.md"@),
        source_path: None,
        parent_names: seq![],
    }
}

/// The chapter that lists the used abbreviations.
pub fn make_abbr_chapter(abbrs: &StrMap<String>, used: &StrMap<()>) -> (chapter: Chapter)
    requires
        abbrs.wf(),
        used.wf(),
        all_defined(strings_map_view(abbrs.map()), used.keys()),
    ensures
        chapter_view(chapter) == abbr_chapter_view(strings_map_view(abbrs.map()), used.keys()),
{
    let ghost am = strings_map_view(abbrs.map());
    let ghost ks = used.keys();
    let mut page = String::new();
    let mut i: usize = 0;
    assert(ks.take(0) =~= Seq::<Seq<char>>::empty());
    while i < used.len()
        invariant
            i <= ks.len(),
            ks == used.keys(),
            am == strings_map_view(abbrs.map()),
            abbrs.wf(),
            used.wf(),
            all_defined(am, ks),
            page@ == abbr_page(am, ks.take(i as int)),
        decreases ks.len() - i,
    {
        let (abbr, _) = used.entry(i);
        let expanded = abbrs.get(abbr.as_str()).unwrap();
        let ghost before = page@;
        page.append("* [**");
        page.append(abbr.as_str());
        page.append("**: ");
        page.append(expanded.as_str());
        page.append("](label:abbr-");
        page.append(abbr.as_str());
        page.append(" \"");
        page.append(abbr.as_str());
        page.append("\")");
        page.append("\n");
        proof {
            assert(ks.take(i + 1).drop_last() =~= ks.take(i as int));
            assert(ks.take(i + 1).last() == abbr@);
            assert(page@ =~= before + abbr_entry(abbr@, am[abbr@]));
        }
        i = i + 1;
    }
    assert(ks.take(i as int) =~= ks);
    let chapter = Chapter {
        name: owned("Abbreviations"),
        content: page,
        number: None,
        sub_items: Vec::new(),
        path: Some(owned("abbreviations.md")),
        source_path: None,
        parent_names: Vec::new(),
    };
    proof {
        assert(items_view(chapter.sub_items@) =~= Seq::<ItemView>::empty());
        assert(crate::book::strings_view(chapter.parent_names@) =~= Seq::<Seq<char>>::empty());
    }
    chapter
}

/// Applying the abbreviations of the records to a book: the rewritten
/// items, followed, where some abbreviation was used, by a separator (if
/// `separator`) and the abbreviations chapter. On a failure, the items as
/// they are left: unchanged where an abbreviation is defined twice, as far
/// as [`abbr_items`] got otherwise.
pub open spec fn abbr_book(
    records: Seq<(Seq<char>, Seq<char>)>,
    separator: bool,
    items: Seq<ItemView>,
) -> Result<Seq<ItemView>, (AbbrFailure, Seq<ItemView>)> {
    match abbreviation_table(records) {
        Err(a) => Err((AbbrFailure::Duplicate(a), items)),
        Ok(m) => match abbr_items(m, seq![], items) {
            Err(fv) => Err(fv),
            Ok((u, v)) => Ok(
                if u.len() == 0 {
                    v
                } else {
                    (if separator {
                        v.push(ItemView::Separator)
                    } else {
                        v
                    }).push(ItemView::Chapter(abbr_chapter_view(m, u)))
                },
            ),
        },
    }
}

/// Applies the abbreviations that `records` define to the book, as
/// [`abbr_book`] says.
pub fn rewrite_book(records: Vec<Abbreviation>, separator: bool, book: &mut Book) -> (r: Result<(), AbbrError>)
    ensures
        match abbr_book(record_views(records@), separator, old(book)@) {
            Ok(v) => r is Ok && final(book)@ == v,
            Err((f, v)) => r matches Err(e) && abbr_failure_matches(e, f) && final(book)@ == v,
        },
{
    let ghost rv = record_views(records@);
    let abbreviations = match build_abbreviations(records) {
        Ok(t) => t,
        Err(e) => {
            return Err(e);
        },
    };
    let mut used: StrMap<()> = StrMap::new();
    let ghost am = strings_map_view(abbreviations.map());
    assert(abbreviation_table(rv) == Ok::<Map<Seq<char>, Seq<char>>, Seq<char>>(am));
    proof {
        lemma_abbr_items_defined(am, Seq::empty(), book@);
    }
    let ghost items0 = book@;
    match do_rewrite(&abbreviations, &mut used, &mut book.items) {
        Ok(()) => {},
        Err(e) => {
            return Err(e);
        },
    }
    assert(abbr_items(am, Seq::empty(), items0) == Ok::<(Seq<Seq<char>>, Seq<ItemView>), (AbbrFailure, Seq<ItemView>)>((used.keys(), book@)));
    if used.len() > 0 {
        let ghost v = book.items@;
        if separator {
            book.items.push(BookItem::Separator);
            assert(book.items@.drop_last() =~= v);
            assert(book.items@.last() == BookItem::Separator);
            assert(items_view(book.items@) == items_view(book.items@.drop_last()).push(item_view(book.items@.last())));
        }
        let ghost v2 = book.items@;
        let chapter = make_abbr_chapter(&abbreviations, &used);
        book.items.push(BookItem::Chapter(chapter));
        assert(book.items@.drop_last() =~= v2);
        assert(book.items@.last() == BookItem::Chapter(chapter));
        assert(item_view(BookItem::Chapter(chapter)) == ItemView::Chapter(chapter_view(chapter)));
        assert(items_view(book.items@) == items_view(book.items@.drop_last()).push(item_view(book.items@.last())));
        assert(items_view(book.items@) == items_view(v2).push(ItemView::Chapter(abbr_chapter_view(am, used.keys()))));
        if separator {
            assert(items_view(v2) == items_view(v).push(ItemView::Separator));
        } else {
            assert(v2 == v);
        }
    }
    Ok(())
}

/// The event is an autolink to an abbreviation.
pub open spec fn is_abbreviation_use(e: MdEventView) -> bool {
    match e.tag {
        MdTagView::Link { autolink, dest_url, .. } => autolink && abbr_of(dest_url) is Some,
        _ => false,
    }
}

/// No chapter of `items`, at any depth, uses an abbreviation.
pub open spec fn uses_no_abbreviation(items: Seq<ItemView>) -> bool
    decreases items,
{
    if items.len() == 0 {
        true
    } else {
        uses_no_abbreviation(items.drop_last()) && match items.last() {
            ItemView::Chapter(c) => (forall|k: int|
                0 <= k < markdown_events(c.content).len() ==> !is_abbreviation_use(
                    #[trigger] markdown_events(c.content)[k],
                )) && uses_no_abbreviation(c.sub_items),
            _ => true,
        }
    }
}

proof fn lemma_events_without_abbreviations(abbrs: Map<Seq<char>, Seq<char>>, used: Seq<Seq<char>>, ev: Seq<MdEventView>)
    requires
        forall|k: int| 0 <= k < ev.len() ==> !is_abbreviation_use(#[trigger] ev[k]),
    ensures
        abbr_events(abbrs, used, ev) == Ok::<(Seq<Seq<char>>, Seq<RewriteView>), Seq<char>>((used, seq![])),
    decreases ev.len(),
{
    if ev.len() > 0 {
        assert(!is_abbreviation_use(ev[ev.len() - 1]));
        assert forall|k: int| 0 <= k < ev.drop_last().len() implies !is_abbreviation_use(#[trigger] ev.drop_last()[k]) by {
            assert(ev.drop_last()[k] == ev[k]);
        }
        lemma_events_without_abbreviations(abbrs, used, ev.drop_last());
    }
}

/// Rewriting the abbreviations of items in which no chapter uses an
/// abbreviation changes nothing and uses nothing.
pub proof fn lemma_items_without_abbreviations(abbrs: Map<Seq<char>, Seq<char>>, used: Seq<Seq<char>>, items: Seq<ItemView>)
    requires
        uses_no_abbreviation(items),
    ensures
        abbr_items(abbrs, used, items) == Ok::<(Seq<Seq<char>>, Seq<ItemView>), (AbbrFailure, Seq<ItemView>)>((used, items)),
    decreases items,
{
    if items.len() > 0 {
        let p = items.drop_last();
        lemma_items_without_abbreviations(abbrs, used, p);
        assert(p.push(items.last()) =~= items);
        if let ItemView::Chapter(c) = items.last() {
            lemma_events_without_abbreviations(abbrs, used, markdown_events(c.content));
            let bytes = utf8(c.content);
            vstd::utf8::encode_utf8_valid_utf8(c.content);
            vstd::utf8::is_char_boundary_start_end_of_seq(bytes);
            vstd::utf8::encode_utf8_decode_utf8(c.content);
            assert(bytes.subrange(0, bytes.len() as int) =~= bytes);
            let none = Seq::<RewriteView>::empty();
            assert(splice_ok(bytes, none, 0, false));
            assert(splice(bytes, none, 0) == bytes);
            assert(decreases_to!(items => items[items.len() - 1]));
            lemma_items_without_abbreviations(abbrs, used, c.sub_items);
            assert(ChapterView { content: c.content, sub_items: c.sub_items, ..c } == c);
        }
    } else {
        assert(items =~= Seq::<ItemView>::empty());
    }
}

/// Where the records define each abbreviation once and no chapter uses an
/// abbreviation, the book is left as it is: no separator and no
/// abbreviations chapter are added.
pub proof fn lemma_book_without_abbreviations(records: Seq<(Seq<char>, Seq<char>)>, separator: bool, items: Seq<ItemView>)
    requires
        abbreviation_table(records) is Ok,
        uses_no_abbreviation(items),
    ensures
        abbr_book(records, separator, items) == Ok::<Seq<ItemView>, (AbbrFailure, Seq<ItemView>)>(items),
{
    let m = abbreviation_table(records)->Ok_0;
    lemma_items_without_abbreviations(m, seq![], items);
}

/// Rewriting abbreviations changes only the sources of chapters: the
/// outline of the rewritten items stays as it was.
pub proof fn lemma_abbr_keeps_outline(abbrs: Map<Seq<char>, Seq<char>>, used: Seq<Seq<char>>, items: Seq<ItemView>)
    ensures
        abbr_items(abbrs, used, items) matches Ok((_, v)) ==> same_outline(items, v),
    decreases items,
{
    if items.len() > 0 {
        let p = items.drop_last();
        lemma_abbr_keeps_outline(abbrs, used, p);
        if let Ok((u1, done)) = abbr_items(abbrs, used, p) {
            if let Ok((u3, v)) = abbr_items(abbrs, used, items) {
                assert(v.drop_last() =~= done);
                if let ItemView::Chapter(c) = items.last() {
                    assert(decreases_to!(items => items[items.len() - 1]));
                    let u2 = abbr_events(abbrs, u1, markdown_events(c.content))->Ok_0.0;
                    lemma_abbr_keeps_outline(abbrs, u2, c.sub_items);
                }
            }
        }
    }
}

/// The abbreviations that the events use, in order.
pub open spec fn abbr_uses(ev: Seq<MdEventView>) -> Seq<Seq<char>>
    decreases ev.len(),
{
    if ev.len() == 0 {
        seq![]
    } else if is_abbreviation_use(ev.last()) {
        match ev.last().tag {
            MdTagView::Link { dest_url, .. } => abbr_uses(ev.drop_last()).push(abbr_of(dest_url)->Some_0),
            _ => abbr_uses(ev.drop_last()),
        }
    } else {
        abbr_uses(ev.drop_last())
    }
}

/// An abbreviation's first use in the book is written out in full, as a
/// link with its expansion as the text; every later use, and every use of
/// one used before, is a short reference. There is one rewrite per use, in
/// order, and the abbreviations used become known as used.
pub proof fn lemma_first_use_in_full(abbrs: Map<Seq<char>, Seq<char>>, used: Seq<Seq<char>>, ev: Seq<MdEventView>)
    ensures
        abbr_events(abbrs, used, ev) matches Ok((u, rws)) ==> {
            &&& rws.len() == abbr_uses(ev).len()
            &&& forall|x: Seq<char>| u.contains(x) <==> (used.contains(x) || abbr_uses(ev).contains(x))
            &&& forall|k: int|
                #![trigger rws[k]]
                0 <= k < rws.len() ==> rws[k].replacement == (if !used.contains(abbr_uses(ev)[k]) && !abbr_uses(
                    ev,
                ).take(k).contains(abbr_uses(ev)[k]) {
                    "["@ + abbrs[abbr_uses(ev)[k]] + "](ref:abbr-"@ + abbr_uses(ev)[k] + ")"@
                } else {
                    "<ref:abbr-"@ + abbr_uses(ev)[k] + ">"@
                })
        },
    decreases ev.len(),
{
    if ev.len() > 0 {
        let dl = ev.drop_last();
        lemma_first_use_in_full(abbrs, used, dl);
        if let Ok((u1, r1)) = abbr_events(abbrs, used, dl) {
            if let Ok((u, rws)) = abbr_events(abbrs, used, ev) {
                let us1 = abbr_uses(dl);
                let us = abbr_uses(ev);
                if is_abbreviation_use(ev.last()) {
                    let a = us[us.len() - 1];
                    assert(us == us1.push(a));
                    assert(us.take(us1.len() as int) =~= us1);
                    assert forall|k: int| 0 <= k < us1.len() implies us.take(k) == us1.take(k) by {
                        assert(us.take(k) =~= us1.take(k));
                    }
                    assert forall|x: Seq<char>| us.contains(x) <==> (us1.contains(x) || x == a) by {
                        if us.contains(x) {
                            let q = choose|q: int| 0 <= q < us.len() && us[q] == x;
                            if q < us1.len() {
                                assert(us1[q] == x);
                            }
                        }
                        if us1.contains(x) {
                            let q = choose|q: int| 0 <= q < us1.len() && us1[q] == x;
                            assert(us[q] == x);
                        }
                        if x == a {
                            assert(us[us.len() - 1] == x);
                        }
                    }
                    let first = !u1.contains(a);
                    assert(first <==> (!used.contains(a) && !us1.contains(a)));
                    assert(u == (if first { u1.push(a) } else { u1 }));
                    assert(rws.len() == r1.len() + 1);
                    assert forall|k: int| 0 <= k < r1.len() implies rws[k] == r1[k] by {}
                    assert forall|x: Seq<char>| u.contains(x) <==> (used.contains(x) || us.contains(x)) by {
                        if first {
                            if u.contains(x) {
                                let q = choose|q: int| 0 <= q < u.len() && u[q] == x;
                                if q < u1.len() {
                                    assert(u1[q] == x);
                                }
                            }
                            if u1.contains(x) {
                                let q = choose|q: int| 0 <= q < u1.len() && u1[q] == x;
                                assert(u[q] == x);
                            }
                            if x == a {
                                assert(u[u.len() - 1] == x);
                            }
                        }
                    }
                    let k = r1.len() as int;
                    assert(us[k] == a);
                    assert(us.take(k) == us1);
                    assert(rws[k].replacement == abbr_replacement(abbrs[a], a, first));
                } else {
                    assert(us == us1);
                    assert(rws == r1);
                }
            }
        }
    }
}

} // verus!
