//! Figures: fenced code blocks whose info string starts with `figure`
//! become numbered figures with a caption and a label that cross-references
//! can name.
use vstd::prelude::*;
use vstd::string::*;
use vstd::utf8::decode_utf8;
use std::ops::Range;
use crate::assoc::StrMap;
use crate::book::{BookItem, Chapter, ChapterView, ItemView, items_view, item_view, chapter_view, strings_view, lemma_items_view_facts, lemma_items_view_resume, same_outline};
use crate::markdown::{MdEvent, MdEventView, MdTag, MdTagView, markdown_events, md_events_view, parse_markdown, opens_with_table, starts_with_table};
use crate::rewrite::{Rewrite, RewriteView, rewrite_view, rws_view, splice, splice_ok, splice_content};
use crate::text::{
    utf8, valid_byte_range, byte_slice, is_valid_byte_range, str_eq, trim, trim_spec, first_of, lemma_first_of, find_char, decimal, push_decimal,
    is_white_space, lemma_trim_empty,
};

verus! {

/// Why the figures could not be numbered.
#[derive(Debug)]
pub enum FigureError {
    /// A figure in the named chapter has no label.
    MissingLabel(String),
    /// The Markdown events of a chapter did not fit its source.
    MalformedEvents,
    /// A figure counter reached the largest `usize`.
    CounterOverflow,
}

/// The failures that the specification foresees.
pub enum FigureFailure {
    MissingLabel(Seq<char>),
    Malformed,
    Overflow,
}

pub open spec fn figure_failure_matches(e: FigureError, f: FigureFailure) -> bool {
    match (e, f) {
        (FigureError::MissingLabel(a), FigureFailure::MissingLabel(b)) => a@ == b,
        (FigureError::MalformedEvents, FigureFailure::Malformed) => true,
        (FigureError::CounterOverflow, FigureFailure::Overflow) => true,
        _ => false,
    }
}

/// The info string split at spaces into at most three parts (what
/// `splitn(3, ' ')` gives).
pub open spec fn info_parts(info: Seq<char>) -> Seq<Seq<char>> {
    let i0 = first_of(info, ' ', 0);
    if i0 >= info.len() {
        seq![info]
    } else {
        let rest = info.skip(i0 + 1);
        let i1 = first_of(rest, ' ', 0);
        if i1 >= rest.len() {
            seq![info.take(i0), rest]
        } else {
            seq![info.take(i0), rest.take(i1), rest.skip(i1 + 1)]
        }
    }
}

/// Index of the first end of a code block at or after `k`.
pub open spec fn code_end_from(ev: Seq<MdEventView>, k: int) -> Option<int>
    decreases ev.len() - k,
{
    if k < 0 || k >= ev.len() {
        None
    } else if ev[k].tag is CodeEnd {
        Some(k)
    } else {
        code_end_from(ev, k + 1)
    }
}

/// [`code_end_from`] finds the first end of a code block at or after `k`.
pub proof fn lemma_code_end(ev: Seq<MdEventView>, k: int)
    requires
        0 <= k,
    ensures
        code_end_from(ev, k) matches Some(j) ==> k <= j < ev.len() && ev[j].tag is CodeEnd,
        code_end_from(ev, k) is None ==> forall|m: int| k <= m < ev.len() ==> !(ev[m].tag is CodeEnd),
    decreases ev.len() - k,
{
    if k < ev.len() && !(ev[k].tag is CodeEnd) {
        lemma_code_end(ev, k + 1);
    }
}

/// What follows the first line of `inner`: nothing where it has only one.
pub open spec fn after_first_line(inner: Seq<char>) -> Seq<char> {
    let k = first_of(inner, '\n', 0);
    if k < inner.len() {
        inner.skip(k + 1)
    } else {
        seq![]
    }
}

/// The caption of a figure: its first line without surrounding white
/// space, if that is not empty.
pub open spec fn description_of(inner: Seq<char>) -> Option<Seq<char>> {
    if inner.len() == 0 {
        None
    } else {
        let d = trim_spec(inner.take(first_of(inner, '\n', 0)));
        if d.len() == 0 {
            None
        } else {
            Some(d)
        }
    }
}

/// The name of the `counter`th (from 0) figure of type `ty`: `{ty} {counter + 1}`.
pub open spec fn figure_name(ty: Seq<char>, counter: nat) -> Seq<char> {
    ty + " "@ + decimal(counter + 1)
}

/// What a figure becomes: a `figure` div with the body and a
/// `figure-caption` paragraph with the name and the description, followed
/// by a label with the name as its supplement.
pub open spec fn figure_block(
    label: Seq<char>,
    body: Seq<char>,
    name: Seq<char>,
    description: Option<Seq<char>>,
) -> Seq<char> {
    let caption = match description {
        Some(d) => name + ": "@ + d,
        None => name,
    };
    "<div class=\"figure\" id=\""@ + label + "\">\n\n"@ + body + "\n\n<p class=\"figure-caption\">"@
        + caption + "</p>\n</div>\n\n[](label:"@ + label + " \""@ + name + "\")\n\n"@
}

/// The figure whose fenced code block starts at event `i` and ends at event
/// `j`: the counters after it and its rewrite.
pub open spec fn figure_at(
    content: Seq<char>,
    ev: Seq<MdEventView>,
    i: int,
    j: int,
    parts: Seq<Seq<char>>,
    counters: Map<Seq<char>, usize>,
) -> Result<(Map<Seq<char>, usize>, RewriteView), FigureFailure> {
    let bytes = utf8(content);
    let start = ev[i + 1].start;
    let end = if j == i + 1 {
        ev[j].end
    } else {
        ev[j - 1].end
    };
    let whole_block = start == ev[j].start && end == ev[j].end;
    if !whole_block && !valid_byte_range(bytes, start as int, end as int) {
        Err(FigureFailure::Malformed)
    } else {
        let inner = if whole_block {
            seq![]
        } else {
            decode_utf8(bytes.subrange(start as int, end as int))
        };
        let description = description_of(inner);
        let body = match description {
            Some(_) => after_first_line(inner),
            None => inner,
        };
        {
            let ty = if parts.len() > 2 {
                parts[2]
            } else if opens_with_table(body) {
                "Table"@
            } else {
                "Figure"@
            };
            let counter = if counters.contains_key(ty) {
                counters[ty]
            } else {
                0
            };
            if counter == usize::MAX {
                Err(FigureFailure::Overflow)
            } else {
                Ok(
                    (
                        counters.insert(ty, (counter + 1) as usize),
                        RewriteView {
                            start: ev[i].start,
                            end: ev[i].end,
                            replacement: figure_block(
                                parts[1],
                                body,
                                figure_name(ty, counter as nat),
                                description,
                            ),
                        },
                    ),
                )
            }
        }
    }
}

pub open spec fn prepend_figure(
    r: RewriteView,
    rest: Result<(Map<Seq<char>, usize>, Seq<RewriteView>), FigureFailure>,
) -> Result<(Map<Seq<char>, usize>, Seq<RewriteView>), FigureFailure> {
    match rest {
        Ok((m, s)) => Ok((m, seq![r] + s)),
        Err(f) => Err(f),
    }
}

/// The figures of the chapter `name` found by reading the events `ev` of
/// its source from index `i` on, each with the counter of its type; the
/// counters after them and their rewrites.
pub open spec fn figures_from(
    content: Seq<char>,
    name: Seq<char>,
    ev: Seq<MdEventView>,
    i: int,
    counters: Map<Seq<char>, usize>,
) -> Result<(Map<Seq<char>, usize>, Seq<RewriteView>), FigureFailure>
    decreases ev.len() - i,
{
    if i < 0 || i >= ev.len() {
        Ok((counters, seq![]))
    } else {
        match ev[i].tag {
            MdTagView::FencedCode { info } => {
                let parts = info_parts(info);
                if parts[0] != "figure"@ {
                    figures_from(content, name, ev, i + 1, counters)
                } else if parts.len() < 2 {
                    Err(FigureFailure::MissingLabel(name))
                } else {
                    match code_end_from(ev, i + 1) {
                        None => Err(FigureFailure::Malformed),
                        Some(j) => {
                            proof {
                                lemma_code_end(ev, i + 1);
                            }
                            match figure_at(content, ev, i, j, parts, counters) {
                                Err(f) => Err(f),
                                Ok((c2, r)) => prepend_figure(
                                    r,
                                    figures_from(content, name, ev, j + 1, c2),
                                ),
                            }
                        },
                    }
                }
            },
            _ => figures_from(content, name, ev, i + 1, counters),
        }
    }
}

fn owned(s: &str) -> (r: String)
    ensures
        r@ == s@,
{
    s.to_owned()
}

/// Splits the info string as [`info_parts`] says.
fn split_info(info: &str) -> (parts: Vec<String>)
    ensures
        parts@.len() == info_parts(info@).len(),
        forall|k: int| 0 <= k < parts@.len() ==> #[trigger] parts@[k]@ == info_parts(info@)[k],
{
    let len = info.unicode_len();
    let i0 = find_char(info, ' ');
    proof {
        lemma_first_of(info@, ' ', 0);
    }
    let mut parts: Vec<String> = Vec::new();
    if i0 >= len {
        parts.push(owned(info));
    } else {
        let rest = info.substring_char(i0 + 1, len);
        assert(rest@ =~= info@.skip(i0 + 1));
        let rlen = rest.unicode_len();
        let i1 = find_char(rest, ' ');
        proof {
            lemma_first_of(rest@, ' ', 0);
        }
        parts.push(owned(info.substring_char(0, i0)));
        if i1 >= rlen {
            parts.push(owned(rest));
        } else {
            parts.push(owned(rest.substring_char(0, i1)));
            parts.push(owned(rest.substring_char(i1 + 1, rlen)));
        }
    }
    parts
}

/// The caption of a figure, as [`description_of`] says; its UTF-8 length
/// is at most that of `inner`.
fn description(inner: &str) -> (d: Option<&str>)
    ensures
        match d {
            Some(x) => description_of(inner@) == Some(x@),
            None => description_of(inner@) is None,
        },
{
    let len = inner.unicode_len();
    if len == 0 {
        return None;
    }
    let k = find_char(inner, '\n');
    proof {
        lemma_first_of(inner@, '\n', 0);
    }
    let line = inner.substring_char(0, k);
    let d = trim(line);
    if d.unicode_len() == 0 {
        None
    } else {
        Some(d)
    }
}

/// Builds the figure whose code block starts at event `i` and ends at
/// event `j`, as [`figure_at`] says.
fn make_figure(
    content: &str,
    events: &Vec<MdEvent>,
    i: usize,
    j: usize,
    parts: &Vec<String>,
    counters: &mut StrMap<usize>,
) -> (r: Result<Rewrite, FigureError>)
    requires
        old(counters).wf(),
        i + 1 <= j < events@.len(),
        parts@.len() >= 2,
    ensures
        final(counters).wf(),
        match figure_at(content@, md_events_view(events@), i as int, j as int, strings_view(parts@), old(counters).map()) {
            Ok((m, rv)) => r matches Ok(rw) && rewrite_view(rw) == rv && final(counters).map() == m,
            Err(f) => r matches Err(e) && figure_failure_matches(e, f),
        },
{
    let ghost bytes = utf8(content@);
    let ghost ps = strings_view(parts@);
    let start = events[i + 1].start;
    let end = if j == i + 1 {
        events[j].end
    } else {
        events[j - 1].end
    };
    let whole = start == events[j].start && end == events[j].end;
    let inner: String = if whole {
        String::new()
    } else {
        if !is_valid_byte_range(content, start, end) {
            return Err(FigureError::MalformedEvents);
        }
        let t = owned(byte_slice(content, start, end));
        proof {
            vstd::utf8::encode_utf8_decode_utf8(t@);
        }
        t
    };
    let ghost iv = if whole {
        Seq::<char>::empty()
    } else {
        decode_utf8(bytes.subrange(start as int, end as int))
    };
    assert(inner@ == iv);
    let inner_str = inner.as_str();
    let desc = description(inner_str);
    let body: &str = match desc {
        Some(_) => {
            let n = inner_str.unicode_len();
            let k = find_char(inner_str, '\n');
            proof {
                lemma_first_of(inner@, '\n', 0);
            }
            if k < n {
                inner_str.substring_char(k + 1, n)
            } else {
                inner_str.substring_char(n, n)
            }
        },
        None => inner_str,
    };
    assert(body@ =~= (match description_of(iv) {
        Some(_) => after_first_line(iv),
        None => iv,
    }));
    let ty: String = if parts.len() > 2 {
        parts[2].clone()
    } else if starts_with_table(body) {
        owned("Table")
    } else {
        owned("Figure")
    };
    let counter: usize = match counters.get(ty.as_str()) {
        Some(c) => *c,
        None => 0,
    };
    if counter == usize::MAX {
        return Err(FigureError::CounterOverflow);
    }
    counters.insert(ty.clone(), counter + 1);
    let mut name = String::new();
    name.append(ty.as_str());
    name.append(" ");
    push_decimal(&mut name, counter + 1);
    assert(name@ =~= figure_name(ty@, counter as nat));
    let caption: String = match desc {
        Some(d) => {
            let mut c = name.clone();
            c.append(": ");
            c.append(d);
            c
        },
        None => name.clone(),
    };
    let label = parts[1].as_str();
    let mut block = String::new();
    block.append("<div class=\"figure\" id=\"");
    block.append(label);
    block.append("\">\n\n");
    block.append(body);
    block.append("\n\n<p class=\"figure-caption\">");
    block.append(caption.as_str());
    block.append("</p>\n</div>\n\n[](label:");
    block.append(label);
    block.append(" \"");
    block.append(name.as_str());
    block.append("\")\n\n");
    assert(ps[1] == label@);
    assert(parts@.len() > 2 ==> ps[2] == ty@);
    assert(block@ =~= figure_block(label@, body@, name@, match desc { Some(d) => Some(d@), None => None }));
    Ok(Rewrite { range: Range { start: events[i].start, end: events[i].end }, replacement: block })
}

pub open spec fn prepend_figures(
    p: Seq<RewriteView>,
    rest: Result<(Map<Seq<char>, usize>, Seq<RewriteView>), FigureFailure>,
) -> Result<(Map<Seq<char>, usize>, Seq<RewriteView>), FigureFailure> {
    match rest {
        Ok((m, s)) => Ok((m, p + s)),
        Err(f) => Err(f),
    }
}

fn is_code_end(tag: &MdTag) -> (b: bool)
    ensures
        b == (tag is CodeEnd),
{
    match tag {
        MdTag::CodeEnd => true,
        _ => false,
    }
}

/// The rewrites of the figures of one chapter, as [`figures_from`] says.
fn chapter_figures(
    name: &str,
    content: &str,
    counters: &mut StrMap<usize>,
) -> (r: Result<Vec<Rewrite>, FigureError>)
    requires
        old(counters).wf(),
    ensures
        final(counters).wf(),
        match figures_from(content@, name@, markdown_events(content@), 0, old(counters).map()) {
            Ok((m, rws)) => r matches Ok(v) && rws_view(v@) == rws && final(counters).map() == m,
            Err(f) => r matches Err(e) && figure_failure_matches(e, f),
        },
{
    let events = parse_markdown(content);
    let ghost ev = md_events_view(events@);
    let ghost c0 = counters.map();
    let mut out: Vec<Rewrite> = Vec::new();
    let mut i: usize = 0;
    assert(rws_view(out@) =~= Seq::<RewriteView>::empty());
    proof {
        if let Ok((m, s)) = figures_from(content@, name@, ev, 0, c0) {
            assert(Seq::<RewriteView>::empty() + s =~= s);
        }
    }
    while i < events.len()
        invariant
            i <= ev.len(),
            ev == md_events_view(events@),
            ev == markdown_events(content@),
            c0 == old(counters).map(),
            counters.wf(),
            figures_from(content@, name@, ev, 0, c0) == prepend_figures(
                rws_view(out@),
                figures_from(content@, name@, ev, i as int, counters.map()),
            ),
        decreases ev.len() - i,
    {
        let ghost before = rws_view(out@);
        let ghost cm = counters.map();
        match &events[i].tag {
            MdTag::FencedCode { info } => {
                let parts = split_info(info.as_str());
                let ghost ps = info_parts(info@);
                assert(strings_view(parts@) =~= ps);
                if !str_eq(parts[0].as_str(), "figure") {
                    i = i + 1;
                } else if parts.len() < 2 {
                    return Err(FigureError::MissingLabel(owned(name)));
                } else {
                    let mut j = i + 1;
                    if j >= events.len() {
                        proof {
                            lemma_code_end(ev, i + 1);
                        }
                        return Err(FigureError::MalformedEvents);
                    }
                    #[verifier::loop_isolation(false)]
                    while !is_code_end(&events[j].tag)
                        invariant
                            ev == md_events_view(events@),
                            i + 1 <= j < ev.len(),
                            code_end_from(ev, i + 1) == code_end_from(ev, j as int),
                        decreases ev.len() - j,
                    {
                        j = j + 1;
                        if j >= events.len() {
                            proof {
                                lemma_code_end(ev, j as int);
                            }
                            return Err(FigureError::MalformedEvents);
                        }
                    }
                    assert(code_end_from(ev, i + 1) == Some(j as int));
                    let rw = match make_figure(content, &events, i, j, &parts, counters) {
                        Ok(rw) => rw,
                        Err(e) => {
                            return Err(e);
                        },
                    };
                    out.push(rw);
                    proof {
                        assert(rws_view(out@) =~= before.push(rewrite_view(rw)));
                        if let Ok((m, s)) = figures_from(content@, name@, ev, j + 1, counters.map()) {
                            assert(before + (seq![rewrite_view(rw)] + s) =~= rws_view(out@) + s);
                        }
                    }
                    i = j + 1;
                }
            },
            _ => {
                i = i + 1;
            },
        }
    }
    proof {
        if let Ok((m, s)) = figures_from(content@, name@, ev, i as int, counters.map()) {
            assert(rws_view(out@) + s =~= rws_view(out@));
        }
    }
    Ok(out)
}

/// Numbering the figures of every chapter of `items` in summary order,
/// through all nested items, with one counter per figure type. On a
/// failure, the items as far as they got: the chapters before the failing
/// one rewritten, the failing one and all after it as they were (the
/// failing one with its own source rewritten where the failure lies in its
/// nested items).
pub open spec fn figure_items(
    counters: Map<Seq<char>, usize>,
    items: Seq<ItemView>,
) -> Result<(Map<Seq<char>, usize>, Seq<ItemView>), (FigureFailure, Seq<ItemView>)>
    decreases items,
{
    if items.len() == 0 {
        Ok((counters, seq![]))
    } else {
        match figure_items(counters, items.drop_last()) {
            Err((f, part)) => Err((f, part.push(items.last()))),
            Ok((c1, done)) => match items.last() {
                ItemView::Chapter(c) => match figures_from(c.content, c.name, markdown_events(c.content), 0, c1) {
                    Err(f) => Err((f, done.push(items.last()))),
                    Ok((c2, rws)) => if !splice_ok(utf8(c.content), rws, 0, false) {
                        Err((FigureFailure::Malformed, done.push(items.last())))
                    } else {
                        let content = decode_utf8(splice(utf8(c.content), rws, 0));
                        match figure_items(c2, c.sub_items) {
                            Err((f, subs)) => Err(
                                (f, done.push(ItemView::Chapter(ChapterView { content: content, sub_items: subs, ..c }))),
                            ),
                            Ok((c3, subs)) => Ok(
                                (c3, done.push(ItemView::Chapter(ChapterView { content: content, sub_items: subs, ..c }))),
                            ),
                        }
                    },
                },
                other => Ok((c1, done.push(other))),
            },
        }
    }
}

proof fn lemma_figure_items_err(counters: Map<Seq<char>, usize>, items: Seq<ItemView>, i: int)
    requires
        0 <= i <= items.len(),
        figure_items(counters, items.take(i)) is Err,
    ensures
        figure_items(counters, items) == Err::<(Map<Seq<char>, usize>, Seq<ItemView>), (FigureFailure, Seq<ItemView>)>(
            (figure_items(counters, items.take(i))->Err_0.0, figure_items(counters, items.take(i))->Err_0.1 + items.skip(i)),
        ),
    decreases items.len(),
{
    let (f, part) = figure_items(counters, items.take(i))->Err_0;
    if i == items.len() {
        assert(items.take(i) =~= items);
        assert(part + items.skip(i) =~= part);
    } else {
        assert(items.drop_last().take(i) =~= items.take(i));
        lemma_figure_items_err(counters, items.drop_last(), i);
        assert((part + items.drop_last().skip(i)).push(items.last()) =~= part + items.skip(i));
    }
}

/// Numbers the figures of every chapter of `items`, as [`figure_items`]
/// says, counting on from `counters`.
pub fn number_figures(items: &mut Vec<BookItem>, counters: &mut StrMap<usize>) -> (r: Result<(), FigureError>)
    requires
        old(counters).wf(),
    ensures
        final(counters).wf(),
        match figure_items(old(counters).map(), items_view(old(items)@)) {
            Ok((m, v)) => r is Ok && final(counters).map() == m && items_view(final(items)@) == v,
            Err((f, v)) => r matches Err(e) && figure_failure_matches(e, f) && items_view(final(items)@) == v,
        },
    decreases old(items)@,
{
    let mut rest: Vec<BookItem> = Vec::new();
    std::mem::swap(items, &mut rest);
    let ghost orig = rest@;
    let ghost c0 = counters.map();
    let ghost mut k: int = 0;
    proof {
        lemma_items_view_facts(orig);
        assert(orig.take(0) =~= Seq::<BookItem>::empty());
        assert(items@ =~= Seq::<BookItem>::empty());
    }
    while rest.len() > 0
        invariant
            0 <= k <= orig.len(),
            k + rest@.len() == orig.len(),
            rest@ == orig.skip(k),
            old(items)@ == orig,
            c0 == old(counters).map(),
            counters.wf(),
            items_view(orig).len() == orig.len(),
            forall|i: int| 0 <= i < orig.len() ==> #[trigger] items_view(orig)[i] == item_view(orig[i]),
            forall|j: int| 0 <= j <= orig.len() ==> #[trigger] items_view(orig.take(j)) == items_view(orig).take(j),
            figure_items(c0, items_view(orig.take(k))) == Ok::<(Map<Seq<char>, usize>, Seq<ItemView>), (FigureFailure, Seq<ItemView>)>(
                (counters.map(), items_view(items@)),
            ),
        decreases rest@.len(),
    {
        let item = rest.remove(0);
        let ghost prev_items = items@;
        assert(rest@ =~= orig.skip(k + 1));
        let ghost iv = items_view(orig).take(k + 1);
        proof {
            assert(orig[k] == item);
            assert(iv.drop_last() =~= items_view(orig).take(k));
            assert(iv.last() == item_view(item));
            assert(items_view(orig.take(k + 1)) == iv);
        }
        match item {
            BookItem::Chapter(mut c) => {
                let ghost c0c = c;
                let ghost cv = chapter_view(c0c);
                assert(iv.last() == ItemView::Chapter(cv));
                let rws = match chapter_figures(c.name.as_str(), c.content.as_str(), counters) {
                    Ok(rws) => rws,
                    Err(e) => {
                        let ghost done = items@;
                        items.push(BookItem::Chapter(c));
                        items.append(&mut rest);
                        proof {
                            lemma_figure_items_err(c0, items_view(orig), k + 1);
                            lemma_items_view_resume(done, BookItem::Chapter(c), orig, k);
                        }
                        return Err(e);
                    },
                };
                match splice_content(c.content.as_str(), &rws, false) {
                    Some(out) => {
                        c.content = out;
                        proof {
                            vstd::utf8::encode_utf8_decode_utf8(c.content@);
                        }
                    },
                    None => {
                        let ghost done = items@;
                        items.push(BookItem::Chapter(c));
                        items.append(&mut rest);
                        proof {
                            lemma_figure_items_err(c0, items_view(orig), k + 1);
                            lemma_items_view_resume(done, BookItem::Chapter(c), orig, k);
                        }
                        return Err(FigureError::MalformedEvents);
                    },
                }
                proof {
                    assert(decreases_to!(orig => orig[k]));
                    assert(decreases_to!(orig[k] => c0c));
                    assert(decreases_to!(c0c => c0c.sub_items));
                    assert(decreases_to!(c0c.sub_items => c0c.sub_items@));
                    assert(c.sub_items == c0c.sub_items);
                    assert(decreases_to!(old(items)@ => c.sub_items@));
                }
                match number_figures(&mut c.sub_items, counters) {
                    Ok(()) => {},
                    Err(e) => {
                        proof {
                            assert(item_view(BookItem::Chapter(c)) == ItemView::Chapter(
                                ChapterView { content: c.content@, sub_items: items_view(c.sub_items@), ..cv },
                            ));
                        }
                        let ghost done = items@;
                        items.push(BookItem::Chapter(c));
                        items.append(&mut rest);
                        proof {
                            lemma_figure_items_err(c0, items_view(orig), k + 1);
                            lemma_items_view_resume(done, BookItem::Chapter(c), orig, k);
                        }
                        return Err(e);
                    },
                }
                proof {
                    assert(item_view(BookItem::Chapter(c)) == ItemView::Chapter(
                        ChapterView { content: c.content@, sub_items: items_view(c.sub_items@), ..cv },
                    ));
                }
                items.push(BookItem::Chapter(c));
                proof {
                    assert(items@.drop_last() =~= prev_items);
                }
            },
            other => {
                items.push(other);
                proof {
                    assert(items@.drop_last() =~= prev_items);
                }
            },
        }
        proof {
            k = k + 1;
            assert(rest@ =~= orig.skip(k));
        }
    }
    proof {
        assert(orig.take(k) =~= orig);
        assert(items_view(orig).take(k) =~= items_view(orig));
    }
    Ok(())
}

/// Every counter of `a` is in `b`, with a count at least as large.
pub open spec fn counters_grow(a: Map<Seq<char>, usize>, b: Map<Seq<char>, usize>) -> bool {
    forall|t: Seq<char>| #[trigger] a.contains_key(t) ==> b.contains_key(t) && a[t] <= b[t]
}

proof fn lemma_figures_from_grow(
    content: Seq<char>,
    name: Seq<char>,
    ev: Seq<MdEventView>,
    i: int,
    counters: Map<Seq<char>, usize>,
)
    ensures
        figures_from(content, name, ev, i, counters) matches Ok((m, _)) ==> counters_grow(counters, m),
    decreases ev.len() - i,
{
    if 0 <= i < ev.len() {
        match ev[i].tag {
            MdTagView::FencedCode { info } => {
                let parts = info_parts(info);
                if parts[0] != "figure"@ {
                    lemma_figures_from_grow(content, name, ev, i + 1, counters);
                } else if parts.len() >= 2 {
                    lemma_code_end(ev, i + 1);
                    if let Some(j) = code_end_from(ev, i + 1) {
                        if let Ok((c2, r)) = figure_at(content, ev, i, j, parts, counters) {
                            assert(counters_grow(counters, c2));
                            lemma_figures_from_grow(content, name, ev, j + 1, c2);
                            if let Ok((m, rest)) = figures_from(content, name, ev, j + 1, c2) {
                                assert(figures_from(content, name, ev, i, counters) == Ok::<(Map<Seq<char>, usize>, Seq<RewriteView>), FigureFailure>((m, seq![r] + rest)));
                            }
                        }
                    }
                }
            },
            _ => {
                lemma_figures_from_grow(content, name, ev, i + 1, counters);
            },
        }
    }
}

/// Numbering figures only ever counts up: every figure type keeps its
/// counter, which never goes down, so the numbers of a type go on from
/// chapter to chapter.
pub proof fn lemma_figure_counters_grow(counters: Map<Seq<char>, usize>, items: Seq<ItemView>)
    ensures
        figure_items(counters, items) matches Ok((m, _)) ==> counters_grow(counters, m),
    decreases items,
{
    if items.len() > 0 {
        lemma_figure_counters_grow(counters, items.drop_last());
        if let Ok((c1, done)) = figure_items(counters, items.drop_last()) {
            if let ItemView::Chapter(c) = items.last() {
                lemma_figures_from_grow(c.content, c.name, markdown_events(c.content), 0, c1);
                if let Ok((c2, rws)) = figures_from(c.content, c.name, markdown_events(c.content), 0, c1) {
                    assert(decreases_to!(items => items[items.len() - 1]));
                    lemma_figure_counters_grow(c2, c.sub_items);
                }
            }
        }
    }
}

/// The event opens a fenced code block whose info string starts with the
/// word `figure`.
pub open spec fn is_figure_start(e: MdEventView) -> bool {
    match e.tag {
        MdTagView::FencedCode { info } => info_parts(info)[0] == "figure"@,
        _ => false,
    }
}

/// No chapter of `items`, at any depth, holds a figure.
pub open spec fn has_no_figures(items: Seq<ItemView>) -> bool
    decreases items,
{
    if items.len() == 0 {
        true
    } else {
        has_no_figures(items.drop_last()) && match items.last() {
            ItemView::Chapter(c) => (forall|k: int|
                0 <= k < markdown_events(c.content).len() ==> !is_figure_start(
                    #[trigger] markdown_events(c.content)[k],
                )) && has_no_figures(c.sub_items),
            _ => true,
        }
    }
}

proof fn lemma_events_without_figures(
    content: Seq<char>,
    name: Seq<char>,
    ev: Seq<MdEventView>,
    i: int,
    counters: Map<Seq<char>, usize>,
)
    requires
        forall|k: int| 0 <= k < ev.len() ==> !is_figure_start(#[trigger] ev[k]),
    ensures
        figures_from(content, name, ev, i, counters) == Ok::<(Map<Seq<char>, usize>, Seq<RewriteView>), FigureFailure>(
            (counters, seq![]),
        ),
    decreases ev.len() - i,
{
    if 0 <= i < ev.len() {
        assert(!is_figure_start(ev[i]));
        lemma_events_without_figures(content, name, ev, i + 1, counters);
    }
}

/// Numbering the figures of items in which no chapter holds a figure
/// changes nothing, the counters included.
pub proof fn lemma_items_without_figures(counters: Map<Seq<char>, usize>, items: Seq<ItemView>)
    requires
        has_no_figures(items),
    ensures
        figure_items(counters, items) == Ok::<(Map<Seq<char>, usize>, Seq<ItemView>), (FigureFailure, Seq<ItemView>)>((counters, items)),
    decreases items,
{
    if items.len() > 0 {
        let p = items.drop_last();
        lemma_items_without_figures(counters, p);
        assert(p.push(items.last()) =~= items);
        if let ItemView::Chapter(c) = items.last() {
            lemma_events_without_figures(c.content, c.name, markdown_events(c.content), 0, counters);
            let bytes = utf8(c.content);
            vstd::utf8::encode_utf8_valid_utf8(c.content);
            vstd::utf8::is_char_boundary_start_end_of_seq(bytes);
            vstd::utf8::encode_utf8_decode_utf8(c.content);
            assert(bytes.subrange(0, bytes.len() as int) =~= bytes);
            let none = Seq::<RewriteView>::empty();
            assert(splice_ok(bytes, none, 0, false));
            assert(splice(bytes, none, 0) == bytes);
            assert(decreases_to!(items => items[items.len() - 1]));
            lemma_items_without_figures(counters, c.sub_items);
            assert(ChapterView { content: c.content, sub_items: c.sub_items, ..c } == c);
        }
    } else {
        assert(items =~= Seq::<ItemView>::empty());
    }
}

/// Numbering figures changes only the sources of chapters: the outline of
/// the book stays as it was.
pub proof fn lemma_figure_keeps_outline(counters: Map<Seq<char>, usize>, items: Seq<ItemView>)
    ensures
        figure_items(counters, items) matches Ok((_, v)) ==> same_outline(items, v),
    decreases items,
{
    if items.len() > 0 {
        let p = items.drop_last();
        lemma_figure_keeps_outline(counters, p);
        if let Ok((c1, done)) = figure_items(counters, p) {
            if let Ok((c3, v)) = figure_items(counters, items) {
                assert(v.drop_last() =~= done);
                if let ItemView::Chapter(c) = items.last() {
                    assert(decreases_to!(items => items[items.len() - 1]));
                    let c2 = figures_from(c.content, c.name, markdown_events(c.content), 0, c1)->Ok_0.0;
                    lemma_figure_keeps_outline(c2, c.sub_items);
                }
            }
        }
    }
}

/// The source text inside the code block that opens at event `i` and
/// closes at event `j`: from the start of the event after the opening one
/// to the end of the last event before the closing one, or nothing where
/// the block holds no event.
pub open spec fn block_text(content: Seq<char>, ev: Seq<MdEventView>, i: int, j: int) -> Seq<char> {
    let start = ev[i + 1].start;
    let end = if j == i + 1 {
        ev[j].end
    } else {
        ev[j - 1].end
    };
    if start == ev[j].start && end == ev[j].end {
        seq![]
    } else {
        decode_utf8(utf8(content).subrange(start as int, end as int))
    }
}

/// A figure keeps the text of its code block: its replacement holds, whole,
/// the block's text without at most its first line, and that first line is
/// left out exactly when it holds more than white space (it is then the
/// description).
pub proof fn lemma_figure_contents(
    content: Seq<char>,
    ev: Seq<MdEventView>,
    i: int,
    j: int,
    parts: Seq<Seq<char>>,
    counters: Map<Seq<char>, usize>,
)
    ensures
        figure_at(content, ev, i, j, parts, counters) matches Ok((_, rv)) ==> exists|
            d: Seq<char>,
            body: Seq<char>,
            pre: Seq<char>,
            post: Seq<char>,
        |
            #![trigger d + body, pre + body + post]
            block_text(content, ev, i, j) == d + body && rv.replacement == pre + body + post && ((d.len() == 0)
                <==> (forall|k: int|
                0 <= k < first_of(block_text(content, ev, i, j), '\n', 0) ==> is_white_space(
                    #[trigger] block_text(content, ev, i, j)[k],
                ))) && (d.len() > 0 ==> !d.drop_last().contains('\n') && (d.last() == '\n' || body.len() == 0)),
{
    if let Ok((m, rv)) = figure_at(content, ev, i, j, parts, counters) {
        let inner = block_text(content, ev, i, j);
        let k = first_of(inner, '\n', 0);
        lemma_first_of(inner, '\n', 0);
        let line = inner.take(k);
        lemma_trim_empty(line);
        let blank = forall|q: int| 0 <= q < k ==> is_white_space(#[trigger] inner[q]);
        assert(blank <==> (forall|q: int| 0 <= q < line.len() ==> is_white_space(#[trigger] line[q]))) by {
            assert forall|q: int| 0 <= q < line.len() implies line[q] == inner[q] by {}
        }
        let description = description_of(inner);
        let contents = match description {
            Some(_) => after_first_line(inner),
            None => inner,
        };
        let d: Seq<char> = match description {
            Some(_) => if k < inner.len() {
                inner.take(k + 1)
            } else {
                inner
            },
            None => seq![],
        };
        assert(inner == d + contents);
        if d.len() > 0 {
            assert forall|q: int| 0 <= q < d.drop_last().len() implies d.drop_last()[q] != '\n' by {
                assert(d.drop_last()[q] == inner[q]);
            }
        }
        let pre = "<div class=\"figure\" id=\""@ + parts[1] + "\">\n\n"@;
        let post = rv.replacement.skip((pre.len() + contents.len()) as int);
        assert(rv.replacement == pre + contents + post);
    }
}

/// The count of the figures of type `ty` so far.
pub open spec fn count_of(counters: Map<Seq<char>, usize>, ty: Seq<char>) -> int {
    if counters.contains_key(ty) {
        counters[ty] as int
    } else {
        0
    }
}

/// A figure is numbered one past the figures of its type before it: the
/// counter of its type (the third word of the info string, where there is
/// one) goes up by exactly one, no other counter changes, and the figure
/// ends with a label of the figure's own label whose supplement is its
/// type and number.
pub proof fn lemma_figure_numbered(
    content: Seq<char>,
    ev: Seq<MdEventView>,
    i: int,
    j: int,
    parts: Seq<Seq<char>>,
    counters: Map<Seq<char>, usize>,
)
    ensures
        figure_at(content, ev, i, j, parts, counters) matches Ok((m, rv)) ==> exists|ty: Seq<char>|
            #![trigger count_of(counters, ty)]
            (parts.len() > 2 ==> ty == parts[2]) && m == counters.insert(ty, (count_of(counters, ty) + 1) as usize)
                && ("[](label:"@ + parts[1] + " \""@ + ty + " "@ + decimal((count_of(counters, ty) + 1) as nat)
                + "\")\n\n"@).is_suffix_of(rv.replacement),
{
    if let Ok((m, rv)) = figure_at(content, ev, i, j, parts, counters) {
        let inner = block_text(content, ev, i, j);
        let description = description_of(inner);
        let contents = match description {
            Some(_) => after_first_line(inner),
            None => inner,
        };
        let ty = if parts.len() > 2 {
            parts[2]
        } else if opens_with_table(contents) {
            "Table"@
        } else {
            "Figure"@
        };
        let c = count_of(counters, ty);
        let tail = "[](label:"@ + parts[1] + " \""@ + ty + " "@ + decimal((c + 1) as nat) + "\")\n\n"@;
        let r = rv.replacement;
        let name = ty + " "@ + decimal((c + 1) as nat);
        let caption = match description {
            Some(d) => name + ": "@ + d,
            None => name,
        };
        let head = "<div class=\"figure\" id=\""@ + parts[1] + "\">\n\n"@ + contents + "\n\n<p class=\"figure-caption\">"@
            + caption + "</p>\n</div>\n\n"@;
        assert(r == figure_block(parts[1], contents, figure_name(ty, c as nat), description));
        assert(figure_name(ty, c as nat) == name);
        reveal_strlit("</p>\n</div>\n\n[](label:");
        reveal_strlit("</p>\n</div>\n\n");
        reveal_strlit("[](label:");
        assert("</p>\n</div>\n\n[](label:"@ =~= "</p>\n</div>\n\n"@ + "[](label:"@);
        assert(r =~= head + tail);
        assert((head + tail).subrange(head.len() as int, (head + tail).len() as int) =~= tail);
        assert(tail.is_suffix_of(r));
        assert((parts.len() > 2 ==> ty == parts[2]) && m == counters.insert(ty, (c + 1) as usize) && tail.is_suffix_of(r));
    }
}

} // verus!
