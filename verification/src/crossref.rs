//! Cross-references: links with the `label` protocol define an id (at the
//! chapter where they stand, with an optional supplement); links with the
//! `ref` protocol are rewritten into links to that place.
use vstd::prelude::*;
use vstd::string::*;
use std::ops::Range;
use indexmap::IndexMap;
use crate::assoc::StrMap;
use crate::extract::{Link, LinkView, link_view, links_view, link_map_entries, link_map_len, link_map_get_index, url_protocol, url_value};
use crate::markdown::{markdown_html, render_html};
use crate::rewrite::{Rewrite, RewriteView, Rewrites, rewrite_view, rewrites_view, lemma_rewrites_view_insert, no_rewrites_listed};
use crate::text::str_eq;

verus! {

/// Where a label points and the text that stands for it.
#[derive(Debug)]
pub struct Crossref {
    pub url: String,
    pub supplement: Option<String>,
}

/// What a cross-reference holds, as mathematical values.
pub struct CrossrefView {
    pub url: Seq<char>,
    pub supplement: Option<Seq<char>>,
}

pub open spec fn crossref_view(c: Crossref) -> CrossrefView {
    CrossrefView {
        url: c.url@,
        supplement: match c.supplement {
            Some(s) => Some(s@),
            None => None,
        },
    }
}

pub open spec fn crossrefs_view(m: Map<Seq<char>, Crossref>) -> Map<Seq<char>, CrossrefView> {
    Map::new(|k: Seq<char>| m.contains_key(k), |k: Seq<char>| crossref_view(m[k]))
}

/// Why cross-referencing failed.
#[derive(Debug)]
pub enum XrefError {
    /// The same label id was defined twice.
    DuplicateLabel(String),
    /// A reference named a label that is not defined.
    UnknownReference(String),
    /// The Markdown events of a chapter did not fit its source.
    MalformedEvents,
}

/// The failures that the specification of cross-referencing foresees.
pub enum XrefFailure {
    DuplicateLabel(Seq<char>),
    UnknownReference(Seq<char>),
}

pub open spec fn failure_matches(e: XrefError, f: XrefFailure) -> bool {
    match (e, f) {
        (XrefError::DuplicateLabel(a), XrefFailure::DuplicateLabel(b)) => a@ == b,
        (XrefError::UnknownReference(a), XrefFailure::UnknownReference(b)) => a@ == b,
        _ => false,
    }
}

/// The state of the scan of labels: the labels found so far and the
/// rewrites of each path.
pub struct LabelScan {
    pub known: Map<Seq<char>, CrossrefView>,
    pub rws: Map<Seq<char>, Seq<RewriteView>>,
}

/// The rewrites gathered for `path`, none where it has no entry.
pub open spec fn rws_of(rws: Map<Seq<char>, Seq<RewriteView>>, path: Seq<char>) -> Seq<RewriteView> {
    if rws.contains_key(path) {
        rws[path]
    } else {
        seq![]
    }
}

/// Where the label `id` of the chapter at `path` points: `/{path}#{id}`.
pub open spec fn label_url(path: Seq<char>, id: Seq<char>) -> Seq<char> {
    "/"@ + path + "#"@ + id
}

/// What a label link becomes: its text rendered as HTML inside a span with
/// the label's id, or nothing for a label without text.
pub open spec fn label_replacement(id: Seq<char>, text: Option<Seq<char>>) -> Seq<char> {
    match text {
        Some(t) => "<span id=\""@ + id + "\">"@ + markdown_html(t) + "</span>"@,
        None => seq![],
    }
}

/// What a reference becomes: a Markdown link with the given text to the
/// label's place.
pub open spec fn ref_replacement(text: Seq<char>, url: Seq<char>) -> Seq<char> {
    "["@ + text + "]("@ + url + ")"@
}

/// Reading one link of the chapter at `path` while scanning labels. With
/// `strict`, a label id met twice fails; otherwise the later one wins.
pub open spec fn scan_label(st: LabelScan, path: Seq<char>, l: LinkView, strict: bool) -> Result<LabelScan, XrefFailure> {
    if url_protocol(l.url) != "label"@ {
        Ok(st)
    } else {
        let id = url_value(l.url);
        if strict && st.known.contains_key(id) {
            Err(XrefFailure::DuplicateLabel(id))
        } else {
            Ok(
                LabelScan {
                    known: st.known.insert(
                        id,
                        CrossrefView {
                            url: label_url(path, id),
                            supplement: if l.title.len() > 0 {
                                Some(l.title)
                            } else {
                                None
                            },
                        },
                    ),
                    rws: st.rws.insert(
                        path,
                        rws_of(st.rws, path).push(
                            RewriteView {
                                start: l.start,
                                end: l.end,
                                replacement: label_replacement(id, l.text),
                            },
                        ),
                    ),
                },
            )
        }
    }
}

pub open spec fn scan_label_links(st: LabelScan, path: Seq<char>, ls: Seq<LinkView>, strict: bool) -> Result<LabelScan, XrefFailure>
    decreases ls.len(),
{
    if ls.len() == 0 {
        Ok(st)
    } else {
        match scan_label_links(st, path, ls.drop_last(), strict) {
            Err(f) => Err(f),
            Ok(s1) => scan_label(s1, path, ls.last(), strict),
        }
    }
}

/// Scanning the labels of every chapter's links, chapter after chapter;
/// every chapter path gets an entry among the rewrites.
pub open spec fn scan_labels(st: LabelScan, e: Seq<(Seq<char>, Seq<LinkView>)>, strict: bool) -> Result<LabelScan, XrefFailure>
    decreases e.len(),
{
    if e.len() == 0 {
        Ok(st)
    } else {
        match scan_labels(st, e.drop_last(), strict) {
            Err(f) => Err(f),
            Ok(s1) => {
                let p = e.last().0;
                scan_label_links(
                    LabelScan { known: s1.known, rws: s1.rws.insert(p, rws_of(s1.rws, p)) },
                    p,
                    e.last().1,
                    strict,
                )
            },
        }
    }
}

proof fn lemma_label_links_err(st: LabelScan, path: Seq<char>, ls: Seq<LinkView>, strict: bool, j: int)
    requires
        0 <= j <= ls.len(),
        scan_label_links(st, path, ls.take(j), strict) is Err,
    ensures
        scan_label_links(st, path, ls, strict) == scan_label_links(st, path, ls.take(j), strict),
    decreases ls.len(),
{
    if j == ls.len() {
        assert(ls.take(j) =~= ls);
    } else {
        assert(ls.drop_last().take(j) =~= ls.take(j));
        lemma_label_links_err(st, path, ls.drop_last(), strict, j);
    }
}

proof fn lemma_labels_err(st: LabelScan, e: Seq<(Seq<char>, Seq<LinkView>)>, strict: bool, i: int)
    requires
        0 <= i <= e.len(),
        scan_labels(st, e.take(i), strict) is Err,
    ensures
        scan_labels(st, e, strict) == scan_labels(st, e.take(i), strict),
    decreases e.len(),
{
    if i == e.len() {
        assert(e.take(i) =~= e);
    } else {
        assert(e.drop_last().take(i) =~= e.take(i));
        lemma_labels_err(st, e.drop_last(), strict, i);
    }
}

proof fn lemma_crossrefs_insert(m: Map<Seq<char>, Crossref>, k: Seq<char>, c: Crossref)
    ensures
        crossrefs_view(m.insert(k, c)) == crossrefs_view(m).insert(k, crossref_view(c)),
{
    assert(crossrefs_view(m.insert(k, c)) =~= crossrefs_view(m).insert(k, crossref_view(c)));
}

fn owned(s: &str) -> (r: String)
    ensures
        r@ == s@,
{
    s.to_owned()
}

/// Scans the labels of `map` as [`scan_labels`] says, starting with no
/// labels and the rewrites already in `rewrites`: gives the labels found
/// and leaves the rewrites of the labels in `rewrites`; with `strict`, a
/// label id defined twice is an error.
pub fn rewrite_and_scan_labels(
    rewrites: &mut Rewrites,
    map: &IndexMap<String, Vec<Link>>,
    strict: bool,
) -> (r: Result<StrMap<Crossref>, XrefError>)
    requires
        old(rewrites).wf(),
    ensures
        final(rewrites).wf(),
        match scan_labels(
            LabelScan { known: Map::empty(), rws: rewrites_view(old(rewrites)@) },
            link_map_entries(*map),
            strict,
        ) {
            Ok(st) => r matches Ok(k) && k.wf() && crossrefs_view(k.map()) == st.known
                && rewrites_view(final(rewrites)@) == st.rws,
            Err(f) => r matches Err(e) && failure_matches(e, f),
        },
{
    let ghost e = link_map_entries(*map);
    let ghost init = LabelScan { known: Map::empty(), rws: rewrites_view(old(rewrites)@) };
    let mut known: StrMap<Crossref> = StrMap::new();
    let n = link_map_len(map);
    let mut i: usize = 0;
    proof {
        assert(crossrefs_view(known.map()) =~= Map::<Seq<char>, CrossrefView>::empty());
        assert(e.take(0) =~= Seq::<(Seq<char>, Seq<LinkView>)>::empty());
    }
    while i < n
        invariant
            i <= n,
            n == e.len(),
            e == link_map_entries(*map),
            init == (LabelScan { known: Map::empty(), rws: rewrites_view(old(rewrites)@) }),
            rewrites.wf(),
            known.wf(),
            scan_labels(init, e.take(i as int), strict) == Ok::<LabelScan, XrefFailure>(
                LabelScan { known: crossrefs_view(known.map()), rws: rewrites_view(rewrites@) },
            ),
        decreases n - i,
    {
        let (path, links) = link_map_get_index(map, i).unwrap();
        let ghost p = path@;
        let ghost ls = e[i as int].1;
        let ghost prev_rws = rewrites@;
        let touched = rewrites.at(path.clone());
        let ghost touched_view = touched@;
        assert(touched_view == (if prev_rws.contains_key(p) { prev_rws[p] } else { Seq::empty() }));
        let ghost s0 = LabelScan { known: crossrefs_view(known.map()), rws: rewrites_view(rewrites@) };
        proof {
            assert(p == e[i as int].0);
            assert(ls == links_view(links@));
            lemma_rewrites_view_insert(prev_rws, p, if prev_rws.contains_key(p) { prev_rws[p] } else { Seq::empty() });
            assert(rewrites@ == prev_rws.insert(p, touched_view));
            assert(touched_view.map_values(|r: Rewrite| rewrite_view(r)) =~= rws_of(rewrites_view(prev_rws), p));
            assert(rewrites_view(rewrites@) == rewrites_view(prev_rws).insert(p, rws_of(rewrites_view(prev_rws), p)));
            assert(e.take(i + 1).drop_last() =~= e.take(i as int));
            assert(scan_labels(init, e.take(i + 1), strict) == scan_label_links(s0, p, ls, strict));
            assert(ls.take(0) =~= Seq::<LinkView>::empty());
        }
        let mut j: usize = 0;
        while j < links.len()
            invariant
                j <= links@.len(),
                ls == links_view(links@),
                ls.len() == links@.len(),
                i < e.len(),
                e == link_map_entries(*map),
                p == path@,
                p == e[i as int].0,
                ls == e[i as int].1,
                init == (LabelScan { known: Map::empty(), rws: rewrites_view(old(rewrites)@) }),
                rewrites.wf(),
                known.wf(),
                scan_labels(init, e.take(i + 1), strict) == scan_label_links(s0, p, ls, strict),
                scan_label_links(s0, p, ls.take(j as int), strict) == Ok::<LabelScan, XrefFailure>(
                    LabelScan { known: crossrefs_view(known.map()), rws: rewrites_view(rewrites@) },
                ),
            decreases links@.len() - j,
        {
            let link = &links[j];
            let ghost lv = link_view(*link);
            let ghost st = LabelScan { known: crossrefs_view(known.map()), rws: rewrites_view(rewrites@) };
            proof {
                assert(ls[j as int] == lv);
                assert(ls.take(j + 1).drop_last() =~= ls.take(j as int));
                assert(ls.take(j + 1).last() == lv);
            }
            let protocol = link.url.protocol();
            if str_eq(protocol, "label") {
                let id = link.url.value();
                let supplement = if !link.title.as_str().is_empty() {
                    Some(link.title.clone())
                } else {
                    None
                };
                let mut url = String::new();
                url.append("/");
                url.append(path.as_str());
                url.append("#");
                url.append(id);
                let ghost cr = Crossref { url, supplement };
                proof {
                    assert(crossref_view(cr).url == label_url(p, id@));
                }
                let ghost known_before = known.map();
                let existing = known.insert(owned(id), Crossref { url, supplement });
                proof {
                    lemma_crossrefs_insert(known_before, id@, cr);
                }
                if strict && existing.is_some() {
                    proof {
                        assert(scan_label_links(s0, p, ls.take(j + 1), strict) == Err::<LabelScan, XrefFailure>(XrefFailure::DuplicateLabel(id@)));
                        lemma_label_links_err(s0, p, ls, strict, j + 1);
                        lemma_labels_err(init, e, strict, i + 1);
                    }
                    return Err(XrefError::DuplicateLabel(owned(id)));
                }
                let replacement = match &link.text {
                    Some(text) => {
                        let mut replacement = String::new();
                        replacement.append("<span id=\"");
                        replacement.append(id);
                        replacement.append("\">");
                        let html = render_html(text.as_str());
                        replacement.append(html.as_str());
                        replacement.append("</span>");
                        replacement
                    },
                    None => String::new(),
                };
                proof {
                    assert(replacement@ =~= label_replacement(id@, lv.text));
                }
                let ghost before = rewrites@;
                let rw = Rewrite {
                    range: Range { start: link.full_range.start, end: link.full_range.end },
                    replacement,
                };
                let ghost rwv = rewrite_view(rw);
                rewrites.at(path.clone()).push(rw);
                proof {
                    let old_seq = if before.contains_key(p) { before[p] } else { Seq::empty() };
                    lemma_rewrites_view_insert(before, p, old_seq.push(rw));
                    assert(old_seq.push(rw).map_values(|r: Rewrite| rewrite_view(r)) =~= rws_of(rewrites_view(before), p).push(rwv));
                }
            }
            j = j + 1;
        }
        proof {
            assert(ls.take(j as int) =~= ls);
        }
        i = i + 1;
    }
    proof {
        assert(e.take(i as int) =~= e);
    }
    Ok(known)
}

/// Reading one link of the chapter at `path` while rewriting references:
/// a `ref` link to a known label becomes a link with its own text or, if it
/// has none, the label's supplement; one with neither is left as it is. A
/// `ref` to an unknown label fails with `strict` and is left as it is
/// otherwise.
pub open spec fn scan_ref(
    known: Map<Seq<char>, CrossrefView>,
    rws: Map<Seq<char>, Seq<RewriteView>>,
    path: Seq<char>,
    l: LinkView,
    strict: bool,
) -> Result<Map<Seq<char>, Seq<RewriteView>>, XrefFailure> {
    if url_protocol(l.url) != "ref"@ {
        Ok(rws)
    } else {
        let id = url_value(l.url);
        if !known.contains_key(id) {
            if strict {
                Err(XrefFailure::UnknownReference(id))
            } else {
                Ok(rws)
            }
        } else {
            let cr = known[id];
            let supplement = match l.text {
                Some(t) => Some(t),
                None => cr.supplement,
            };
            match supplement {
                None => Ok(rws),
                Some(text) => Ok(
                    rws.insert(
                        path,
                        rws_of(rws, path).push(
                            RewriteView {
                                start: l.start,
                                end: l.end,
                                replacement: ref_replacement(text, cr.url),
                            },
                        ),
                    ),
                ),
            }
        }
    }
}

pub open spec fn scan_ref_links(
    known: Map<Seq<char>, CrossrefView>,
    rws: Map<Seq<char>, Seq<RewriteView>>,
    path: Seq<char>,
    ls: Seq<LinkView>,
    strict: bool,
) -> Result<Map<Seq<char>, Seq<RewriteView>>, XrefFailure>
    decreases ls.len(),
{
    if ls.len() == 0 {
        Ok(rws)
    } else {
        match scan_ref_links(known, rws, path, ls.drop_last(), strict) {
            Err(f) => Err(f),
            Ok(r1) => scan_ref(known, r1, path, ls.last(), strict),
        }
    }
}

/// Rewriting the references of every chapter's links, chapter after
/// chapter; every chapter path gets an entry among the rewrites.
pub open spec fn scan_refs(
    known: Map<Seq<char>, CrossrefView>,
    rws: Map<Seq<char>, Seq<RewriteView>>,
    e: Seq<(Seq<char>, Seq<LinkView>)>,
    strict: bool,
) -> Result<Map<Seq<char>, Seq<RewriteView>>, XrefFailure>
    decreases e.len(),
{
    if e.len() == 0 {
        Ok(rws)
    } else {
        match scan_refs(known, rws, e.drop_last(), strict) {
            Err(f) => Err(f),
            Ok(r1) => {
                let p = e.last().0;
                scan_ref_links(known, r1.insert(p, rws_of(r1, p)), p, e.last().1, strict)
            },
        }
    }
}

proof fn lemma_ref_links_err(
    known: Map<Seq<char>, CrossrefView>,
    rws: Map<Seq<char>, Seq<RewriteView>>,
    path: Seq<char>,
    ls: Seq<LinkView>,
    strict: bool,
    j: int,
)
    requires
        0 <= j <= ls.len(),
        scan_ref_links(known, rws, path, ls.take(j), strict) is Err,
    ensures
        scan_ref_links(known, rws, path, ls, strict) == scan_ref_links(known, rws, path, ls.take(j), strict),
    decreases ls.len(),
{
    if j == ls.len() {
        assert(ls.take(j) =~= ls);
    } else {
        assert(ls.drop_last().take(j) =~= ls.take(j));
        lemma_ref_links_err(known, rws, path, ls.drop_last(), strict, j);
    }
}

proof fn lemma_refs_err(
    known: Map<Seq<char>, CrossrefView>,
    rws: Map<Seq<char>, Seq<RewriteView>>,
    e: Seq<(Seq<char>, Seq<LinkView>)>,
    strict: bool,
    i: int,
)
    requires
        0 <= i <= e.len(),
        scan_refs(known, rws, e.take(i), strict) is Err,
    ensures
        scan_refs(known, rws, e, strict) == scan_refs(known, rws, e.take(i), strict),
    decreases e.len(),
{
    if i == e.len() {
        assert(e.take(i) =~= e);
    } else {
        assert(e.drop_last().take(i) =~= e.take(i));
        lemma_refs_err(known, rws, e.drop_last(), strict, i);
    }
}

/// Rewrites the references of `map` as [`scan_refs`] says, with the labels
/// `crossrefs`, adding the rewrites to `rewrites`.
pub fn rewrite_refs(
    rewrites: &mut Rewrites,
    map: &IndexMap<String, Vec<Link>>,
    crossrefs: &StrMap<Crossref>,
    strict: bool,
) -> (r: Result<(), XrefError>)
    requires
        old(rewrites).wf(),
        crossrefs.wf(),
    ensures
        final(rewrites).wf(),
        match scan_refs(
            crossrefs_view(crossrefs.map()),
            rewrites_view(old(rewrites)@),
            link_map_entries(*map),
            strict,
        ) {
            Ok(m) => r is Ok && rewrites_view(final(rewrites)@) == m,
            Err(f) => r matches Err(e) && failure_matches(e, f),
        },
{
    let ghost e = link_map_entries(*map);
    let ghost known = crossrefs_view(crossrefs.map());
    let ghost init = rewrites_view(old(rewrites)@);
    let n = link_map_len(map);
    let mut i: usize = 0;
    proof {
        assert(e.take(0) =~= Seq::<(Seq<char>, Seq<LinkView>)>::empty());
    }
    while i < n
        invariant
            i <= n,
            n == e.len(),
            e == link_map_entries(*map),
            known == crossrefs_view(crossrefs.map()),
            crossrefs.wf(),
            init == rewrites_view(old(rewrites)@),
            rewrites.wf(),
            scan_refs(known, init, e.take(i as int), strict) == Ok::<
                Map<Seq<char>, Seq<RewriteView>>,
                XrefFailure,
            >(rewrites_view(rewrites@)),
        decreases n - i,
    {
        let (path, links) = link_map_get_index(map, i).unwrap();
        let ghost p = path@;
        let ghost ls = e[i as int].1;
        let ghost prev_rws = rewrites@;
        let touched = rewrites.at(path.clone());
        let ghost touched_view = touched@;
        assert(touched_view == (if prev_rws.contains_key(p) { prev_rws[p] } else { Seq::empty() }));
        let ghost r0 = rewrites_view(rewrites@);
        proof {
            assert(p == e[i as int].0);
            assert(ls == links_view(links@));
            lemma_rewrites_view_insert(prev_rws, p, touched_view);
            assert(rewrites@ == prev_rws.insert(p, touched_view));
            assert(touched_view.map_values(|r: Rewrite| rewrite_view(r)) =~= rws_of(rewrites_view(prev_rws), p));
            assert(e.take(i + 1).drop_last() =~= e.take(i as int));
            assert(scan_refs(known, init, e.take(i + 1), strict) == scan_ref_links(known, r0, p, ls, strict));
            assert(ls.take(0) =~= Seq::<LinkView>::empty());
        }
        let mut j: usize = 0;
        while j < links.len()
            invariant
                j <= links@.len(),
                ls == links_view(links@),
                ls.len() == links@.len(),
                i < e.len(),
                e == link_map_entries(*map),
                p == path@,
                p == e[i as int].0,
                ls == e[i as int].1,
                known == crossrefs_view(crossrefs.map()),
                crossrefs.wf(),
                init == rewrites_view(old(rewrites)@),
                rewrites.wf(),
                scan_refs(known, init, e.take(i + 1), strict) == scan_ref_links(known, r0, p, ls, strict),
                scan_ref_links(known, r0, p, ls.take(j as int), strict) == Ok::<
                    Map<Seq<char>, Seq<RewriteView>>,
                    XrefFailure,
                >(rewrites_view(rewrites@)),
            decreases links@.len() - j,
        {
            let link = &links[j];
            let ghost lv = link_view(*link);
            proof {
                assert(ls[j as int] == lv);
                assert(ls.take(j + 1).drop_last() =~= ls.take(j as int));
                assert(ls.take(j + 1).last() == lv);
            }
            let protocol = link.url.protocol();
            if str_eq(protocol, "ref") {
                let id = link.url.value();
                match crossrefs.get(id) {
                    None => {
                        if strict {
                            proof {
                                lemma_ref_links_err(known, r0, p, ls, strict, j + 1);
                                lemma_refs_err(known, init, e, strict, i + 1);
                            }
                            return Err(XrefError::UnknownReference(owned(id)));
                        }
                    },
                    Some(crossref) => {
                        let supplement: Option<&str> = match &link.text {
                            Some(text) => Some(text.as_str()),
                            None => match &crossref.supplement {
                                Some(s) => Some(s.as_str()),
                                None => None,
                            },
                        };
                        match supplement {
                            None => {},
                            Some(text) => {
                                let mut replacement = String::new();
                                replacement.append("[");
                                replacement.append(text);
                                replacement.append("](");
                                replacement.append(crossref.url.as_str());
                                replacement.append(")");
                                proof {
                                    assert(replacement@ =~= ref_replacement(text@, crossref.url@));
                                }
                                let ghost before = rewrites@;
                                let rw = Rewrite {
                                    range: Range { start: link.full_range.start, end: link.full_range.end },
                                    replacement,
                                };
                                let ghost rwv = rewrite_view(rw);
                                rewrites.at(path.clone()).push(rw);
                                proof {
                                    let old_seq = if before.contains_key(p) { before[p] } else { Seq::empty() };
                                    lemma_rewrites_view_insert(before, p, old_seq.push(rw));
                                    assert(old_seq.push(rw).map_values(|r: Rewrite| rewrite_view(r)) =~= rws_of(rewrites_view(before), p).push(rwv));
                                }
                            },
                        }
                    },
                }
            }
            j = j + 1;
        }
        proof {
            assert(ls.take(j as int) =~= ls);
        }
        i = i + 1;
    }
    proof {
        assert(e.take(i as int) =~= e);
    }
    Ok(())
}

proof fn lemma_lenient_label_links(st: LabelScan, path: Seq<char>, ls: Seq<LinkView>)
    ensures
        scan_label_links(st, path, ls, false) is Ok,
    decreases ls.len(),
{
    if ls.len() > 0 {
        lemma_lenient_label_links(st, path, ls.drop_last());
    }
}

/// Without `strict`, scanning labels never fails.
pub proof fn lemma_lenient_labels(st: LabelScan, e: Seq<(Seq<char>, Seq<LinkView>)>)
    ensures
        scan_labels(st, e, false) is Ok,
    decreases e.len(),
{
    if e.len() > 0 {
        lemma_lenient_labels(st, e.drop_last());
        let s1 = scan_labels(st, e.drop_last(), false)->Ok_0;
        let p = e.last().0;
        lemma_lenient_label_links(LabelScan { known: s1.known, rws: s1.rws.insert(p, rws_of(s1.rws, p)) }, p, e.last().1);
    }
}

/// The ids of the label links of `ls`, in order.
pub open spec fn label_ids(ls: Seq<LinkView>) -> Seq<Seq<char>>
    decreases ls.len(),
{
    if ls.len() == 0 {
        seq![]
    } else if url_protocol(ls.last().url) == "label"@ {
        label_ids(ls.drop_last()).push(url_value(ls.last().url))
    } else {
        label_ids(ls.drop_last())
    }
}

/// The ids that the reference links of `ls` name, in order.
pub open spec fn ref_ids(ls: Seq<LinkView>) -> Seq<Seq<char>>
    decreases ls.len(),
{
    if ls.len() == 0 {
        seq![]
    } else if url_protocol(ls.last().url) == "ref"@ {
        ref_ids(ls.drop_last()).push(url_value(ls.last().url))
    } else {
        ref_ids(ls.drop_last())
    }
}

/// The label ids of all chapters, chapter after chapter.
pub open spec fn book_label_ids(e: Seq<(Seq<char>, Seq<LinkView>)>) -> Seq<Seq<char>>
    decreases e.len(),
{
    if e.len() == 0 {
        seq![]
    } else {
        book_label_ids(e.drop_last()) + label_ids(e.last().1)
    }
}

/// The ids that the references of all chapters name, chapter after chapter.
pub open spec fn book_ref_ids(e: Seq<(Seq<char>, Seq<LinkView>)>) -> Seq<Seq<char>>
    decreases e.len(),
{
    if e.len() == 0 {
        seq![]
    } else {
        book_ref_ids(e.drop_last()) + ref_ids(e.last().1)
    }
}

/// `x` stands at two places of `s`.
pub open spec fn occurs_twice(s: Seq<Seq<char>>, x: Seq<char>) -> bool {
    exists|i: int, j: int| 0 <= i < j < s.len() && s[i] == x && s[j] == x
}

proof fn lemma_no_dup_concat(a: Seq<Seq<char>>, b: Seq<Seq<char>>)
    ensures
        (a + b).no_duplicates() <==> (a.no_duplicates() && b.no_duplicates() && a.disjoint(b)),
{
    let c = a + b;
    if c.no_duplicates() {
        assert forall|i: int, j: int| 0 <= i < a.len() && 0 <= j < a.len() && i != j implies a[i] != a[j] by {
            assert(c[i] == a[i] && c[j] == a[j]);
        }
        assert forall|i: int, j: int| 0 <= i < b.len() && 0 <= j < b.len() && i != j implies b[i] != b[j] by {
            assert(c[a.len() + i] == b[i] && c[a.len() + j] == b[j]);
        }
        assert forall|i: int, j: int| 0 <= i < a.len() && 0 <= j < b.len() implies a[i] != b[j] by {
            assert(c[i] == a[i] && c[a.len() + j] == b[j]);
        }
    }
    if a.no_duplicates() && b.no_duplicates() && a.disjoint(b) {
        assert forall|i: int, j: int| 0 <= i < c.len() && 0 <= j < c.len() && i != j implies c[i] != c[j] by {
            if i < a.len() && j < a.len() {
            } else if i < a.len() {
                assert(c[j] == b[j - a.len()]);
            } else if j < a.len() {
                assert(c[i] == b[i - a.len()]);
            } else {
                assert(c[i] == b[i - a.len()]);
                assert(c[j] == b[j - a.len()]);
            }
        }
    }
}

proof fn lemma_occurs_twice_concat(a: Seq<Seq<char>>, b: Seq<Seq<char>>, x: Seq<char>)
    ensures
        occurs_twice(a, x) ==> occurs_twice(a + b, x),
        occurs_twice(b, x) ==> occurs_twice(a + b, x),
        a.contains(x) && b.contains(x) ==> occurs_twice(a + b, x),
{
    let c = a + b;
    if occurs_twice(a, x) {
        let (i, j) = choose|i: int, j: int| 0 <= i < j < a.len() && a[i] == x && a[j] == x;
        assert(c[i] == x && c[j] == x);
    }
    if occurs_twice(b, x) {
        let (i, j) = choose|i: int, j: int| 0 <= i < j < b.len() && b[i] == x && b[j] == x;
        assert(c[a.len() + i] == x && c[a.len() + j] == x);
    }
    if a.contains(x) && b.contains(x) {
        let i = choose|i: int| 0 <= i < a.len() && a[i] == x;
        let j = choose|j: int| 0 <= j < b.len() && b[j] == x;
        assert(c[i] == x && c[a.len() + j] == x);
    }
}

proof fn lemma_strict_label_links(st: LabelScan, path: Seq<char>, ls: Seq<LinkView>)
    ensures
        scan_label_links(st, path, ls, true) is Ok <==> (label_ids(ls).no_duplicates() && forall|k: int|
            0 <= k < label_ids(ls).len() ==> !st.known.contains_key(#[trigger] label_ids(ls)[k])),
        scan_label_links(st, path, ls, true) matches Ok(s2) ==> forall|x: Seq<char>|
            #[trigger] s2.known.contains_key(x) <==> (st.known.contains_key(x) || label_ids(ls).contains(x)),
        scan_label_links(st, path, ls, true) matches Err(f) ==> (f matches XrefFailure::DuplicateLabel(id)
            && label_ids(ls).contains(id) && (st.known.contains_key(id) || occurs_twice(label_ids(ls), id))),
    decreases ls.len(),
{
    if ls.len() > 0 {
        let dl = ls.drop_last();
        let l = ls.last();
        let a = label_ids(dl);
        let ids = label_ids(ls);
        lemma_strict_label_links(st, path, dl);
        assert(forall|k: int| 0 <= k < a.len() ==> ids[k] == a[k]);
        match scan_label_links(st, path, dl, true) {
            Err(f) => {
                if let XrefFailure::DuplicateLabel(id) = f {
                    let i = choose|i: int| 0 <= i < a.len() && a[i] == id;
                    assert(ids[i] == id);
                    if occurs_twice(a, id) {
                        let (i1, j1) = choose|i1: int, j1: int| 0 <= i1 < j1 < a.len() && a[i1] == id && a[j1] == id;
                        assert(ids[i1] == id && ids[j1] == id);
                    }
                }
                if !a.no_duplicates() {
                    let (i, j) = choose|i: int, j: int| 0 <= i < a.len() && 0 <= j < a.len() && i != j && a[i] == a[j];
                    assert(ids[i] == ids[j]);
                } else {
                    let k = choose|k: int| 0 <= k < a.len() && st.known.contains_key(a[k]);
                    assert(ids[k] == a[k]);
                }
            },
            Ok(s1) => {
                if url_protocol(l.url) == "label"@ {
                    let v = url_value(l.url);
                    assert(ids == a.push(v));
                    if s1.known.contains_key(v) {
                        assert(ids[ids.len() - 1] == v);
                        if !st.known.contains_key(v) {
                            let i = choose|i: int| 0 <= i < a.len() && a[i] == v;
                            assert(ids[i] == v);
                            assert(occurs_twice(ids, v));
                            assert(!ids.no_duplicates());
                        }
                    } else {
                        assert(!a.contains(v));
                        assert forall|i: int, j: int| 0 <= i < ids.len() && 0 <= j < ids.len() && i != j implies ids[i] != ids[j] by {
                            if i == a.len() {
                                assert(a[j] != v);
                            } else if j == a.len() {
                                assert(a[i] != v);
                            }
                        }
                        assert forall|x: Seq<char>| ids.contains(x) <==> (a.contains(x) || x == v) by {
                            if ids.contains(x) {
                                let i = choose|i: int| 0 <= i < ids.len() && ids[i] == x;
                                if i < a.len() {
                                    assert(a[i] == x);
                                }
                            }
                            if a.contains(x) {
                                let i = choose|i: int| 0 <= i < a.len() && a[i] == x;
                                assert(ids[i] == x);
                            }
                            if x == v {
                                assert(ids[ids.len() - 1] == x);
                            }
                        }
                    }
                } else {
                    assert(ids == a);
                }
            },
        }
    }
}

proof fn lemma_strict_labels(st: LabelScan, e: Seq<(Seq<char>, Seq<LinkView>)>)
    ensures
        scan_labels(st, e, true) is Ok <==> (book_label_ids(e).no_duplicates() && forall|k: int|
            0 <= k < book_label_ids(e).len() ==> !st.known.contains_key(#[trigger] book_label_ids(e)[k])),
        scan_labels(st, e, true) matches Ok(s2) ==> forall|x: Seq<char>|
            #[trigger] s2.known.contains_key(x) <==> (st.known.contains_key(x) || book_label_ids(e).contains(x)),
        scan_labels(st, e, true) matches Err(f) ==> (f matches XrefFailure::DuplicateLabel(id)
            && (st.known.contains_key(id) || occurs_twice(book_label_ids(e), id))),
    decreases e.len(),
{
    if e.len() > 0 {
        let de = e.drop_last();
        let a = book_label_ids(de);
        let b = label_ids(e.last().1);
        let ids = book_label_ids(e);
        assert(ids == a + b);
        lemma_strict_labels(st, de);
        lemma_no_dup_concat(a, b);
        match scan_labels(st, de, true) {
            Err(f) => {
                if let XrefFailure::DuplicateLabel(id) = f {
                    lemma_occurs_twice_concat(a, b, id);
                }
                if a.no_duplicates() {
                    let k = choose|k: int| 0 <= k < a.len() && st.known.contains_key(a[k]);
                    assert(ids[k] == a[k]);
                }
            },
            Ok(s1) => {
                let p = e.last().0;
                let st1 = LabelScan { known: s1.known, rws: s1.rws.insert(p, rws_of(s1.rws, p)) };
                lemma_strict_label_links(st1, p, e.last().1);
                match scan_label_links(st1, p, e.last().1, true) {
                    Err(f) => {
                        if let XrefFailure::DuplicateLabel(id) = f {
                            lemma_occurs_twice_concat(a, b, id);
                        }
                        if b.no_duplicates() {
                            let k = choose|k: int| 0 <= k < b.len() && s1.known.contains_key(b[k]);
                            assert(ids[a.len() + k] == b[k]);
                            if !st.known.contains_key(b[k]) {
                                assert(a.contains(b[k]));
                                let i = choose|i: int| 0 <= i < a.len() && a[i] == b[k];
                                assert(!a.disjoint(b));
                            }
                        }
                    },
                    Ok(s2) => {
                        assert forall|i: int, j: int| 0 <= i < a.len() && 0 <= j < b.len() implies a[i] != b[j] by {
                            assert(s1.known.contains_key(a[i]));
                        }
                        assert forall|k: int| 0 <= k < ids.len() implies !st.known.contains_key(#[trigger] ids[k]) by {
                            if k < a.len() {
                                assert(ids[k] == a[k]);
                            } else {
                                assert(ids[k] == b[k - a.len()]);
                            }
                        }
                        assert forall|x: Seq<char>| ids.contains(x) <==> (a.contains(x) || b.contains(x)) by {
                            if ids.contains(x) {
                                let i = choose|i: int| 0 <= i < ids.len() && ids[i] == x;
                                if i < a.len() {
                                    assert(a[i] == x);
                                } else {
                                    assert(b[i - a.len()] == x);
                                }
                            }
                            if a.contains(x) {
                                let i = choose|i: int| 0 <= i < a.len() && a[i] == x;
                                assert(ids[i] == x);
                            }
                            if b.contains(x) {
                                let i = choose|i: int| 0 <= i < b.len() && b[i] == x;
                                assert(ids[a.len() + i] == x);
                            }
                        }
                    },
                }
            },
        }
    }
}

proof fn lemma_strict_ref_links(
    known: Map<Seq<char>, CrossrefView>,
    rws: Map<Seq<char>, Seq<RewriteView>>,
    path: Seq<char>,
    ls: Seq<LinkView>,
)
    ensures
        scan_ref_links(known, rws, path, ls, true) is Ok <==> forall|k: int|
            0 <= k < ref_ids(ls).len() ==> known.contains_key(#[trigger] ref_ids(ls)[k]),
        scan_ref_links(known, rws, path, ls, true) matches Err(f) ==> (f matches XrefFailure::UnknownReference(id)
            && ref_ids(ls).contains(id) && !known.contains_key(id)),
    decreases ls.len(),
{
    if ls.len() > 0 {
        let dl = ls.drop_last();
        let l = ls.last();
        let a = ref_ids(dl);
        let ids = ref_ids(ls);
        lemma_strict_ref_links(known, rws, path, dl);
        assert(forall|k: int| 0 <= k < a.len() ==> ids[k] == a[k]);
        match scan_ref_links(known, rws, path, dl, true) {
            Err(f) => {
                if let XrefFailure::UnknownReference(id) = f {
                    let i = choose|i: int| 0 <= i < a.len() && a[i] == id;
                    assert(ids[i] == id);
                }
                let k = choose|k: int| 0 <= k < a.len() && !known.contains_key(a[k]);
                assert(ids[k] == a[k]);
            },
            Ok(r1) => {
                if url_protocol(l.url) == "ref"@ {
                    let v = url_value(l.url);
                    assert(ids == a.push(v));
                    assert(ids[ids.len() - 1] == v);
                } else {
                    assert(ids == a);
                }
            },
        }
    }
}

proof fn lemma_strict_refs(
    known: Map<Seq<char>, CrossrefView>,
    rws: Map<Seq<char>, Seq<RewriteView>>,
    e: Seq<(Seq<char>, Seq<LinkView>)>,
)
    ensures
        scan_refs(known, rws, e, true) is Ok <==> forall|k: int|
            0 <= k < book_ref_ids(e).len() ==> known.contains_key(#[trigger] book_ref_ids(e)[k]),
        scan_refs(known, rws, e, true) matches Err(f) ==> (f matches XrefFailure::UnknownReference(id)
            && book_ref_ids(e).contains(id) && !known.contains_key(id)),
    decreases e.len(),
{
    if e.len() > 0 {
        let de = e.drop_last();
        let a = book_ref_ids(de);
        let b = ref_ids(e.last().1);
        let ids = book_ref_ids(e);
        assert(ids == a + b);
        lemma_strict_refs(known, rws, de);
        match scan_refs(known, rws, de, true) {
            Err(f) => {
                if let XrefFailure::UnknownReference(id) = f {
                    let i = choose|i: int| 0 <= i < a.len() && a[i] == id;
                    assert(ids[i] == id);
                }
                let k = choose|k: int| 0 <= k < a.len() && !known.contains_key(a[k]);
                assert(ids[k] == a[k]);
            },
            Ok(r1) => {
                let p = e.last().0;
                lemma_strict_ref_links(known, r1.insert(p, rws_of(r1, p)), p, e.last().1);
                match scan_ref_links(known, r1.insert(p, rws_of(r1, p)), p, e.last().1, true) {
                    Err(f) => {
                        if let XrefFailure::UnknownReference(id) = f {
                            let i = choose|i: int| 0 <= i < b.len() && b[i] == id;
                            assert(ids[a.len() + i] == id);
                        }
                        let k = choose|k: int| 0 <= k < b.len() && !known.contains_key(b[k]);
                        assert(ids[a.len() + k] == b[k]);
                    },
                    Ok(_) => {
                        assert forall|k: int| 0 <= k < ids.len() implies known.contains_key(#[trigger] ids[k]) by {
                            if k < a.len() {
                                assert(ids[k] == a[k]);
                            } else {
                                assert(ids[k] == b[k - a.len()]);
                            }
                        }
                    },
                }
            },
        }
    }
}

/// The rewrite that a reference link `l` to a known label is owed: a
/// Markdown link to the label's place whose text is the reference's own
/// text or, where it has none, the label's supplement.
pub open spec fn owed_ref_rewrite(known: Map<Seq<char>, CrossrefView>, l: LinkView) -> Option<RewriteView> {
    let cr = known[url_value(l.url)];
    let text = match l.text {
        Some(t) => Some(t),
        None => cr.supplement,
    };
    match text {
        Some(t) => Some(RewriteView { start: l.start, end: l.end, replacement: "["@ + t + "]("@ + cr.url + ")"@ }),
        None => None,
    }
}

/// `rws` holds the rewrite `x` for `path`.
pub open spec fn holds_rewrite(rws: Map<Seq<char>, Seq<RewriteView>>, path: Seq<char>, x: RewriteView) -> bool {
    rws.contains_key(path) && rws[path].contains(x)
}

proof fn lemma_ref_keeps(
    known: Map<Seq<char>, CrossrefView>,
    rws: Map<Seq<char>, Seq<RewriteView>>,
    path: Seq<char>,
    ls: Seq<LinkView>,
    strict: bool,
    q: Seq<char>,
    x: RewriteView,
)
    requires
        holds_rewrite(rws, q, x),
    ensures
        scan_ref_links(known, rws, path, ls, strict) matches Ok(r) ==> holds_rewrite(r, q, x),
    decreases ls.len(),
{
    if ls.len() > 0 {
        lemma_ref_keeps(known, rws, path, ls.drop_last(), strict, q, x);
        if let Ok(r1) = scan_ref_links(known, rws, path, ls.drop_last(), strict) {
            if let Ok(r2) = scan_ref(known, r1, path, ls.last(), strict) {
                if r2 != r1 && q == path {
                    let old_seq = r1[q];
                    let i = choose|i: int| 0 <= i < old_seq.len() && old_seq[i] == x;
                    assert(r2[q][i] == x);
                }
            }
        }
    }
}

proof fn lemma_ref_link_rewritten(
    known: Map<Seq<char>, CrossrefView>,
    rws: Map<Seq<char>, Seq<RewriteView>>,
    path: Seq<char>,
    ls: Seq<LinkView>,
    strict: bool,
    j: int,
)
    requires
        0 <= j < ls.len(),
        url_protocol(ls[j].url) == "ref"@,
        known.contains_key(url_value(ls[j].url)),
    ensures
        scan_ref_links(known, rws, path, ls, strict) matches Ok(r) ==> (owed_ref_rewrite(known, ls[j]) matches Some(x)
            ==> holds_rewrite(r, path, x)),
    decreases ls.len(),
{
    let dl = ls.drop_last();
    if j < ls.len() - 1 {
        assert(dl[j] == ls[j]);
        lemma_ref_link_rewritten(known, rws, path, dl, strict, j);
        if let Ok(r1) = scan_ref_links(known, rws, path, dl, strict) {
            if let Some(x) = owed_ref_rewrite(known, ls[j]) {
                if let Ok(r2) = scan_ref(known, r1, path, ls.last(), strict) {
                    assert(scan_ref_links(known, rws, path, ls, strict) == Ok::<Map<Seq<char>, Seq<RewriteView>>, XrefFailure>(r2));
                    if r2 != r1 {
                        let os = r1[path];
                        let k = choose|k: int| 0 <= k < os.len() && os[k] == x;
                        assert(r2[path][k] == x);
                    }
                }
            }
        }
    } else {
        if let Ok(r1) = scan_ref_links(known, rws, path, dl, strict) {
            if let Some(x) = owed_ref_rewrite(known, ls[j]) {
                let r2 = scan_ref(known, r1, path, ls.last(), strict)->Ok_0;
                assert(ls.last() == ls[j]);
                assert(scan_ref_links(known, rws, path, ls, strict) == Ok::<Map<Seq<char>, Seq<RewriteView>>, XrefFailure>(r2));
                assert(r2[path].last() == x);
                assert(r2[path][r2[path].len() - 1] == x);
            }
        }
    }
}

/// Every reference link to a known label gets, at its chapter, the rewrite
/// it is owed: a link to the label's place with the reference's own text,
/// whether or not the label has a supplement, or the label's supplement
/// where the reference has no text.
pub proof fn lemma_references_rewritten(
    known: Map<Seq<char>, CrossrefView>,
    rws: Map<Seq<char>, Seq<RewriteView>>,
    e: Seq<(Seq<char>, Seq<LinkView>)>,
    strict: bool,
    i: int,
    j: int,
)
    requires
        0 <= i < e.len(),
        0 <= j < e[i].1.len(),
        url_protocol(e[i].1[j].url) == "ref"@,
        known.contains_key(url_value(e[i].1[j].url)),
    ensures
        scan_refs(known, rws, e, strict) matches Ok(r) ==> (owed_ref_rewrite(known, e[i].1[j]) matches Some(x)
            ==> holds_rewrite(r, e[i].0, x)),
    decreases e.len(),
{
    let de = e.drop_last();
    let n = e.len() - 1;
    if let Ok(r1) = scan_refs(known, rws, de, strict) {
        let p = e[n].0;
        let r1p = r1.insert(p, rws_of(r1, p));
        if let Some(x) = owed_ref_rewrite(known, e[i].1[j]) {
            if i < n {
                assert(de[i] == e[i]);
                lemma_references_rewritten(known, rws, de, strict, i, j);
                let q = e[i].0;
                assert(holds_rewrite(r1p, q, x));
                lemma_ref_keeps(known, r1p, p, e[n].1, strict, q, x);
            } else {
                lemma_ref_link_rewritten(known, r1p, p, e[n].1, strict, j);
            }
        }
    }
}

/// The rewrite that a label link `l` is owed: its text rendered as HTML in
/// a span whose id is the label's, or nothing where it has no text.
pub open spec fn owed_label_rewrite(l: LinkView) -> RewriteView {
    RewriteView {
        start: l.start,
        end: l.end,
        replacement: match l.text {
            Some(t) => "<span id=\""@ + url_value(l.url) + "\">"@ + markdown_html(t) + "</span>"@,
            None => seq![],
        },
    }
}

/// Where the label link `l` of the chapter at `path` points, and the text
/// that stands for it: its title, unless that is empty.
pub open spec fn owed_crossref(path: Seq<char>, l: LinkView) -> CrossrefView {
    CrossrefView {
        url: "/"@ + path + "#"@ + url_value(l.url),
        supplement: if l.title.len() > 0 {
            Some(l.title)
        } else {
            None
        },
    }
}

/// No label link of `ls` from place `j` on has the id `v`.
pub open spec fn no_label_from(ls: Seq<LinkView>, j: int, v: Seq<char>) -> bool {
    forall|k: int| j <= k < ls.len() && url_protocol(ls[k].url) == "label"@ ==> url_value(#[trigger] ls[k].url) != v
}

proof fn lemma_label_link_keeps(st: LabelScan, path: Seq<char>, ls: Seq<LinkView>, strict: bool, q: Seq<char>, x: RewriteView, v: Seq<char>)
    ensures
        scan_label_links(st, path, ls, strict) matches Ok(s2) ==> (holds_rewrite(st.rws, q, x) ==> holds_rewrite(s2.rws, q, x))
            && (st.known.contains_key(v) ==> s2.known.contains_key(v))
            && (st.known.contains_key(v) && no_label_from(ls, 0, v) ==> s2.known[v] == st.known[v]),
    decreases ls.len(),
{
    if ls.len() > 0 {
        let dl = ls.drop_last();
        assert(no_label_from(ls, 0, v) ==> no_label_from(dl, 0, v)) by {
            if no_label_from(ls, 0, v) {
                assert forall|k: int| 0 <= k < dl.len() && url_protocol(dl[k].url) == "label"@ implies url_value(#[trigger] dl[k].url) != v by {
                    assert(dl[k] == ls[k]);
                }
            }
        }
        lemma_label_link_keeps(st, path, dl, strict, q, x, v);
        if let Ok(s1) = scan_label_links(st, path, dl, strict) {
            if let Ok(s2) = scan_label(s1, path, ls.last(), strict) {
                if s2 != s1 {
                    if holds_rewrite(st.rws, q, x) && q == path {
                        let os = s1.rws[q];
                        let k = choose|k: int| 0 <= k < os.len() && os[k] == x;
                        assert(s2.rws[q][k] == x);
                    }
                    if no_label_from(ls, 0, v) {
                        assert(url_value(ls[ls.len() - 1].url) != v);
                    }
                }
            }
        }
    }
}

proof fn lemma_label_link_found(st: LabelScan, path: Seq<char>, ls: Seq<LinkView>, strict: bool, j: int)
    requires
        0 <= j < ls.len(),
        url_protocol(ls[j].url) == "label"@,
    ensures
        scan_label_links(st, path, ls, strict) matches Ok(s2) ==> holds_rewrite(s2.rws, path, owed_label_rewrite(ls[j]))
            && s2.known.contains_key(url_value(ls[j].url))
            && (no_label_from(ls, j + 1, url_value(ls[j].url)) ==> s2.known[url_value(ls[j].url)] == owed_crossref(path, ls[j])),
    decreases ls.len(),
{
    let dl = ls.drop_last();
    let v = url_value(ls[j].url);
    if let Ok(s1) = scan_label_links(st, path, dl, strict) {
        if let Ok(s2) = scan_label(s1, path, ls.last(), strict) {
            assert(scan_label_links(st, path, ls, strict) == Ok::<LabelScan, XrefFailure>(s2));
            if j < ls.len() - 1 {
                assert(dl[j] == ls[j]);
                lemma_label_link_found(st, path, dl, strict, j);
                if no_label_from(ls, j + 1, v) {
                    assert forall|k: int| j + 1 <= k < dl.len() && url_protocol(dl[k].url) == "label"@ implies url_value(#[trigger] dl[k].url) != v by {
                        assert(dl[k] == ls[k]);
                    }
                    assert(url_value(ls[ls.len() - 1].url) != v || url_protocol(ls[ls.len() - 1].url) != "label"@);
                }
                if s2 != s1 {
                    let os = s1.rws[path];
                    let k = choose|k: int| 0 <= k < os.len() && os[k] == owed_label_rewrite(ls[j]);
                    assert(s2.rws[path][k] == owed_label_rewrite(ls[j]));
                }
            } else {
                assert(ls.last() == ls[j]);
                assert(label_url(path, v) == owed_crossref(path, ls[j]).url);
                assert(label_replacement(v, ls[j].text) == owed_label_rewrite(ls[j]).replacement);
                assert(s2.rws[path][s2.rws[path].len() - 1] == owed_label_rewrite(ls[j]));
            }
        }
    }
}

/// Every label link of a chapter gets the rewrite it is owed, and its id
/// becomes known; where no later label link has the same id, the id points
/// to `/{path}#{id}` of the chapter where the label stands, with the
/// label's title, unless empty, as its supplement.
pub proof fn lemma_labels_found(st: LabelScan, e: Seq<(Seq<char>, Seq<LinkView>)>, strict: bool, i: int, j: int)
    requires
        0 <= i < e.len(),
        0 <= j < e[i].1.len(),
        url_protocol(e[i].1[j].url) == "label"@,
    ensures
        scan_labels(st, e, strict) matches Ok(s2) ==> holds_rewrite(s2.rws, e[i].0, owed_label_rewrite(e[i].1[j]))
            && s2.known.contains_key(url_value(e[i].1[j].url))
            && (no_label_from(e[i].1, j + 1, url_value(e[i].1[j].url)) && (forall|i2: int|
                i < i2 < e.len() ==> no_label_from(#[trigger] e[i2].1, 0, url_value(e[i].1[j].url)))
                ==> s2.known[url_value(e[i].1[j].url)] == owed_crossref(e[i].0, e[i].1[j])),
    decreases e.len(),
{
    let de = e.drop_last();
    let n = e.len() - 1;
    let v = url_value(e[i].1[j].url);
    if let Ok(s1) = scan_labels(st, de, strict) {
        let p = e[n].0;
        let st1 = LabelScan { known: s1.known, rws: s1.rws.insert(p, rws_of(s1.rws, p)) };
        if i < n {
            assert(de[i] == e[i]);
            lemma_labels_found(st, de, strict, i, j);
            let x = owed_label_rewrite(e[i].1[j]);
            assert(holds_rewrite(st1.rws, e[i].0, x));
            lemma_label_link_keeps(st1, p, e[n].1, strict, e[i].0, x, v);
            assert(scan_labels(st, e, strict) == scan_label_links(st1, p, e[n].1, strict));
            assert((forall|i2: int| i < i2 < e.len() ==> no_label_from(#[trigger] e[i2].1, 0, v)) ==> no_label_from(e[n].1, 0, v));
            assert((forall|i2: int| i < i2 < e.len() ==> no_label_from(#[trigger] e[i2].1, 0, v)) ==> (forall|i2: int|
                i < i2 < de.len() ==> no_label_from(#[trigger] de[i2].1, 0, v))) by {
                assert forall|i2: int| i < i2 < de.len() implies de[i2] == e[i2] by {}
            }
        } else {
            assert(scan_labels(st, e, strict) == scan_label_links(st1, p, e[n].1, strict));
            lemma_label_link_found(st1, p, e[n].1, strict, j);
        }
    }
}

/// Scanning labels and then references strictly, from no labels, fails
/// exactly when a label id stands twice among the labels or a reference
/// names an id that no label has; a duplicate label is reported before
/// any reference, and the failure names such an id.
pub proof fn lemma_strict_scan(rws: Map<Seq<char>, Seq<RewriteView>>, e: Seq<(Seq<char>, Seq<LinkView>)>)
    ensures
        match scan_labels(LabelScan { known: Map::empty(), rws }, e, true) {
            Err(f) => !book_label_ids(e).no_duplicates()
                && (f matches XrefFailure::DuplicateLabel(id) && occurs_twice(book_label_ids(e), id)),
            Ok(st) => book_label_ids(e).no_duplicates() && match scan_refs(st.known, st.rws, e, true) {
                Err(f) => f matches XrefFailure::UnknownReference(id) && book_ref_ids(e).contains(id)
                    && !book_label_ids(e).contains(id),
                Ok(_) => forall|k: int|
                    0 <= k < book_ref_ids(e).len() ==> book_label_ids(e).contains(#[trigger] book_ref_ids(e)[k]),
            },
        },
{
    let st0 = LabelScan { known: Map::empty(), rws };
    lemma_strict_labels(st0, e);
    match scan_labels(st0, e, true) {
        Err(f) => {},
        Ok(st) => {
            lemma_strict_refs(st.known, st.rws, e);
            match scan_refs(st.known, st.rws, e, true) {
                Err(f) => {},
                Ok(_) => {
                    assert forall|k: int| 0 <= k < book_ref_ids(e).len() implies book_label_ids(e).contains(
                        #[trigger] book_ref_ids(e)[k],
                    ) by {
                        assert(st.known.contains_key(book_ref_ids(e)[k]));
                    }
                },
            }
        },
    }
}

/// No link of `ls` has the `label` or the `ref` protocol.
pub open spec fn no_crossref_in(ls: Seq<LinkView>) -> bool {
    forall|j: int| 0 <= j < ls.len() ==> url_protocol(#[trigger] ls[j].url) != "label"@ && url_protocol(ls[j].url) != "ref"@
}

/// No link of any chapter of `e` has the `label` or the `ref` protocol.
pub open spec fn no_crossref_links(e: Seq<(Seq<char>, Seq<LinkView>)>) -> bool {
    forall|i: int| 0 <= i < e.len() ==> no_crossref_in(#[trigger] e[i].1)
}

proof fn lemma_links_without_crossrefs(
    st: LabelScan,
    known: Map<Seq<char>, CrossrefView>,
    rws: Map<Seq<char>, Seq<RewriteView>>,
    path: Seq<char>,
    ls: Seq<LinkView>,
    strict: bool,
)
    requires
        no_crossref_in(ls),
    ensures
        scan_label_links(st, path, ls, strict) == Ok::<LabelScan, XrefFailure>(st),
        scan_ref_links(known, rws, path, ls, strict) == Ok::<Map<Seq<char>, Seq<RewriteView>>, XrefFailure>(rws),
    decreases ls.len(),
{
    if ls.len() > 0 {
        assert(no_crossref_in(ls.drop_last())) by {
            assert forall|j: int| 0 <= j < ls.drop_last().len() implies url_protocol(#[trigger] ls.drop_last()[j].url) != "label"@
                && url_protocol(ls.drop_last()[j].url) != "ref"@ by {
                assert(ls.drop_last()[j] == ls[j]);
            }
        }
        lemma_links_without_crossrefs(st, known, rws, path, ls.drop_last(), strict);
        assert(url_protocol(ls[ls.len() - 1].url) != "label"@);
    }
}

proof fn lemma_no_crossref_prefix(e: Seq<(Seq<char>, Seq<LinkView>)>)
    requires
        e.len() > 0,
        no_crossref_links(e),
    ensures
        no_crossref_links(e.drop_last()),
        no_crossref_in(e.last().1),
{
    let de = e.drop_last();
    assert forall|i: int| 0 <= i < de.len() implies no_crossref_in(#[trigger] de[i].1) by {
        assert(de[i] == e[i]);
    }
    assert(no_crossref_in(e[e.len() - 1].1));
}

proof fn lemma_labels_without_crossrefs(
    rws: Map<Seq<char>, Seq<RewriteView>>,
    e: Seq<(Seq<char>, Seq<LinkView>)>,
    strict: bool,
)
    requires
        no_crossref_links(e),
        no_rewrites_listed(rws),
    ensures
        scan_labels(LabelScan { known: Map::empty(), rws }, e, strict) matches Ok(st) && st.known == Map::<
            Seq<char>,
            CrossrefView,
        >::empty() && no_rewrites_listed(st.rws),
    decreases e.len(),
{
    if e.len() > 0 {
        lemma_no_crossref_prefix(e);
        lemma_labels_without_crossrefs(rws, e.drop_last(), strict);
        let st1 = scan_labels(LabelScan { known: Map::empty(), rws }, e.drop_last(), strict)->Ok_0;
        let p = e.last().0;
        let st2 = LabelScan { known: st1.known, rws: st1.rws.insert(p, rws_of(st1.rws, p)) };
        lemma_links_without_crossrefs(st2, st1.known, st1.rws, p, e.last().1, strict);
    }
}

proof fn lemma_refs_without_crossrefs(
    known: Map<Seq<char>, CrossrefView>,
    rws: Map<Seq<char>, Seq<RewriteView>>,
    e: Seq<(Seq<char>, Seq<LinkView>)>,
    strict: bool,
)
    requires
        no_crossref_links(e),
        no_rewrites_listed(rws),
    ensures
        scan_refs(known, rws, e, strict) matches Ok(r) && no_rewrites_listed(r),
    decreases e.len(),
{
    if e.len() > 0 {
        lemma_no_crossref_prefix(e);
        lemma_refs_without_crossrefs(known, rws, e.drop_last(), strict);
        let r1 = scan_refs(known, rws, e.drop_last(), strict)->Ok_0;
        let p = e.last().0;
        let st = LabelScan { known, rws: r1 };
        lemma_links_without_crossrefs(st, known, r1.insert(p, rws_of(r1, p)), p, e.last().1, strict);
    }
}

/// Where no link is a label or a reference, scanning labels and then
/// references finds no label and adds no rewrite: every chapter path gets
/// at most an empty list.
pub proof fn lemma_scan_without_crossrefs(
    rws: Map<Seq<char>, Seq<RewriteView>>,
    e: Seq<(Seq<char>, Seq<LinkView>)>,
    strict: bool,
)
    requires
        no_crossref_links(e),
        no_rewrites_listed(rws),
    ensures
        ({
            &&& scan_labels(LabelScan { known: Map::empty(), rws }, e, strict) matches Ok(st)
            &&& st.known == Map::<Seq<char>, CrossrefView>::empty()
            &&& no_rewrites_listed(st.rws)
            &&& scan_refs(st.known, st.rws, e, strict) matches Ok(r)
            &&& no_rewrites_listed(r)
        }),
{
    lemma_labels_without_crossrefs(rws, e, strict);
    let st = scan_labels(LabelScan { known: Map::empty(), rws }, e, strict)->Ok_0;
    lemma_refs_without_crossrefs(st.known, st.rws, e, strict);
}

/// Cross-referencing the links `e` on top of the rewrites `rws`: labels
/// first, in order of the entries, a later label with an id already seen
/// winning; then references, each of which must name a label.
pub open spec fn crossref_rewrites(
    rws: Map<Seq<char>, Seq<RewriteView>>,
    e: Seq<(Seq<char>, Seq<LinkView>)>,
) -> Result<Map<Seq<char>, Seq<RewriteView>>, XrefFailure> {
    let st = scan_labels(LabelScan { known: Map::empty(), rws }, e, false)->Ok_0;
    scan_refs(st.known, st.rws, e, true)
}

proof fn lemma_lenient_label_links_known(st: LabelScan, path: Seq<char>, ls: Seq<LinkView>)
    ensures
        scan_label_links(st, path, ls, false) matches Ok(s2) ==> forall|x: Seq<char>|
            #[trigger] s2.known.contains_key(x) <==> (st.known.contains_key(x) || label_ids(ls).contains(x)),
    decreases ls.len(),
{
    if ls.len() > 0 {
        let dl = ls.drop_last();
        let l = ls.last();
        let a = label_ids(dl);
        let ids = label_ids(ls);
        lemma_lenient_label_links(st, path, dl);
        lemma_lenient_label_links_known(st, path, dl);
        assert forall|x: Seq<char>| a.contains(x) implies ids.contains(x) by {
            let i = choose|i: int| 0 <= i < a.len() && a[i] == x;
            assert(ids[i] == a[i]);
        }
        if url_protocol(l.url) == "label"@ {
            let v = url_value(l.url);
            assert(ids == a.push(v));
            assert(ids[ids.len() - 1] == v);
            assert forall|x: Seq<char>| ids.contains(x) implies (a.contains(x) || x == v) by {
                let i = choose|i: int| 0 <= i < ids.len() && ids[i] == x;
                if i < a.len() {
                    assert(a[i] == x);
                }
            }
        } else {
            assert(ids == a);
        }
    }
}

proof fn lemma_lenient_labels_known(st: LabelScan, e: Seq<(Seq<char>, Seq<LinkView>)>)
    ensures
        scan_labels(st, e, false) matches Ok(s2) ==> forall|x: Seq<char>|
            #[trigger] s2.known.contains_key(x) <==> (st.known.contains_key(x) || book_label_ids(e).contains(x)),
    decreases e.len(),
{
    if e.len() > 0 {
        let de = e.drop_last();
        let a = book_label_ids(de);
        let b = label_ids(e.last().1);
        let ids = book_label_ids(e);
        assert(ids == a + b);
        lemma_lenient_labels(st, de);
        lemma_lenient_labels_known(st, de);
        let s1 = scan_labels(st, de, false)->Ok_0;
        let p = e.last().0;
        let st1 = LabelScan { known: s1.known, rws: s1.rws.insert(p, rws_of(s1.rws, p)) };
        lemma_lenient_label_links_known(st1, p, e.last().1);
        assert forall|x: Seq<char>| ids.contains(x) <==> (a.contains(x) || b.contains(x)) by {
            if ids.contains(x) {
                let i = choose|i: int| 0 <= i < ids.len() && ids[i] == x;
                if i < a.len() {
                    assert(a[i] == x);
                } else {
                    assert(b[i - a.len()] == x);
                }
            }
            if a.contains(x) {
                let i = choose|i: int| 0 <= i < a.len() && a[i] == x;
                assert(ids[i] == x);
            }
            if b.contains(x) {
                let i = choose|i: int| 0 <= i < b.len() && b[i] == x;
                assert(ids[a.len() + i] == x);
            }
        }
    }
}

/// Cross-referencing with later labels winning succeeds exactly when every
/// reference names the id of some label; otherwise the failure names a
/// reference id that no label has.
pub proof fn lemma_crossref_rewrites_failure(
    rws: Map<Seq<char>, Seq<RewriteView>>,
    e: Seq<(Seq<char>, Seq<LinkView>)>,
)
    ensures
        (crossref_rewrites(rws, e) is Ok) <==> forall|k: int|
            0 <= k < book_ref_ids(e).len() ==> book_label_ids(e).contains(#[trigger] book_ref_ids(e)[k]),
        crossref_rewrites(rws, e) matches Err(f) ==> (f matches XrefFailure::UnknownReference(id)
            && book_ref_ids(e).contains(id) && !book_label_ids(e).contains(id)),
{
    let st0 = LabelScan { known: Map::empty(), rws };
    lemma_lenient_labels(st0, e);
    lemma_lenient_labels_known(st0, e);
    let st = scan_labels(st0, e, false)->Ok_0;
    lemma_strict_refs(st.known, st.rws, e);
    assert forall|k: int| 0 <= k < book_ref_ids(e).len() implies (book_label_ids(e).contains(
        #[trigger] book_ref_ids(e)[k],
    ) <==> st.known.contains_key(book_ref_ids(e)[k])) by {}
}

/// Cross-referencing of the links of a book, collected per chapter path
/// into `map`, adding its rewrites to `rewrites`.
pub struct CrossrefPreprocessor {
    pub map: IndexMap<String, Vec<Link>>,
    pub rewrites: Rewrites,
}

impl CrossrefPreprocessor {
    /// Adds the rewrites of the labels and references of `map` to
    /// `rewrites`, as [`crossref_rewrites`] says: a reference to an id that
    /// no label has is an error.
    pub fn create_crossref_rewrites(&mut self) -> (r: Result<(), XrefError>)
        requires
            old(self).rewrites.wf(),
        ensures
            final(self).rewrites.wf(),
            final(self).map == old(self).map,
            match crossref_rewrites(rewrites_view(old(self).rewrites@), link_map_entries(old(self).map)) {
                Ok(m) => r is Ok && rewrites_view(final(self).rewrites@) == m,
                Err(f) => r matches Err(e) && failure_matches(e, f),
            },
    {
        let ghost e = link_map_entries(self.map);
        let ghost init = LabelScan { known: Map::empty(), rws: rewrites_view(self.rewrites@) };
        proof {
            lemma_lenient_labels(init, e);
        }
        let known = rewrite_and_scan_labels(&mut self.rewrites, &self.map, false)?;
        rewrite_refs(&mut self.rewrites, &self.map, &known, true)
    }
}

} // verus!
