//! Links of chapter sources: their URL (split into protocol and value at
//! the first `:`), the source range they cover, their title and, unless
//! they are autolinks, the source of their text.
use vstd::prelude::*;
use vstd::string::*;
use vstd::utf8::decode_utf8;
use std::ops::Range;
use indexmap::IndexMap;
use crate::book::{BookItem, Chapter};
use crate::markdown::{MdEventView, MdTag, MdTagView, markdown_events, md_event_view, md_events_view, parse_markdown};
use crate::text::{utf8, valid_byte_range, byte_slice, is_valid_byte_range, first_of, lemma_first_of, find_char};

verus! {

/// What comes before the first `:` of a URL.
pub open spec fn url_protocol(s: Seq<char>) -> Seq<char> {
    s.take(first_of(s, ':', 0))
}

/// What comes after the first `:` of a URL.
pub open spec fn url_value(s: Seq<char>) -> Seq<char> {
    s.skip(first_of(s, ':', 0) + 1)
}

/// The index of the first `:` of `s`, if any.
fn find_colon(s: &str) -> (idx: Option<usize>)
    ensures
        match idx {
            Some(i) => i == first_of(s@, ':', 0) && i < s@.len() && s@[i as int] == ':',
            None => !s@.contains(':') && first_of(s@, ':', 0) == s@.len(),
        },
{
    let i = find_char(s, ':');
    proof {
        lemma_first_of(s@, ':', 0);
    }
    if i < s.unicode_len() {
        Some(i)
    } else {
        None
    }
}

/// A link destination that has a protocol: a `:` occurs in it.
#[derive(Debug)]
pub struct Url(String);

impl View for Url {
    type V = Seq<char>;

    closed spec fn view(&self) -> Seq<char> {
        self.0@
    }
}

impl Url {
    #[verifier::type_invariant]
    spec fn has_protocol(self) -> bool {
        self.0@.contains(':')
    }

    /// The URL, where `value` holds a `:`.
    pub fn new(value: String) -> (url: Option<Url>)
        ensures
            url is Some <==> value@.contains(':'),
            url matches Some(u) ==> u@ == value@,
    {
        match find_colon(value.as_str()) {
            Some(_) => Some(Url(value)),
            None => None,
        }
    }

    /// What comes before the first `:`.
    pub fn protocol(&self) -> (p: &str)
        ensures
            p@ == url_protocol(self@),
            self@ == p@ + seq![':'] + url_value(self@),
            !p@.contains(':'),
    {
        proof {
            use_type_invariant(self);
            lemma_first_of(self@, ':', 0);
        }
        let i = find_colon(self.0.as_str()).unwrap();
        let p = self.0.as_str().substring_char(0, i);
        assert(self@ =~= p@ + seq![':'] + url_value(self@));
        p
    }

    /// What comes after the first `:`.
    pub fn value(&self) -> (v: &str)
        ensures
            v@ == url_value(self@),
    {
        proof {
            use_type_invariant(self);
        }
        let i = find_colon(self.0.as_str()).unwrap();
        let len = self.0.as_str().unicode_len();
        let v = self.0.as_str().substring_char(i + 1, len);
        assert(v@ =~= url_value(self@));
        v
    }
}

/// A link of a chapter source.
#[derive(Debug)]
pub struct Link {
    pub url: Url,
    /// The bytes of the source that the whole link covers.
    pub full_range: Range<usize>,
    pub title: String,
    /// The source of the link's text; `None` for an autolink.
    pub text: Option<String>,
}

/// What a link holds, as mathematical values.
pub struct LinkView {
    pub url: Seq<char>,
    pub start: usize,
    pub end: usize,
    pub title: Seq<char>,
    pub text: Option<Seq<char>>,
}

pub open spec fn link_view(l: Link) -> LinkView {
    LinkView {
        url: l.url@,
        start: l.full_range.start,
        end: l.full_range.end,
        title: l.title@,
        text: match l.text {
            Some(t) => Some(t@),
            None => None,
        },
    }
}

pub open spec fn links_view(v: Seq<Link>) -> Seq<LinkView> {
    v.map_values(|l: Link| link_view(l))
}

impl Link {
    /// The link with these parts.
    pub fn new(url: Url, full_range: Range<usize>, title: String, text: Option<String>) -> (link: Link)
        ensures
            link == (Link { url, full_range, title, text }),
    {
        Link { url, full_range, title, text }
    }
}

/// Index of the first end of a link at or after `k`.
pub open spec fn link_end_from(ev: Seq<MdEventView>, k: int) -> Option<int>
    decreases ev.len() - k,
{
    if k < 0 || k >= ev.len() {
        None
    } else if ev[k].tag is LinkEnd {
        Some(k)
    } else {
        link_end_from(ev, k + 1)
    }
}

/// [`link_end_from`] finds the first end of a link at or after `k`.
pub proof fn lemma_link_end(ev: Seq<MdEventView>, k: int)
    requires
        0 <= k,
    ensures
        link_end_from(ev, k) matches Some(j) ==> k <= j < ev.len() && ev[j].tag is LinkEnd
            && forall|m: int| k <= m < j ==> !(ev[m].tag is LinkEnd),
        link_end_from(ev, k) is None ==> forall|m: int| k <= m < ev.len() ==> !(ev[m].tag is LinkEnd),
    decreases ev.len() - k,
{
    if k < ev.len() && !(ev[k].tag is LinkEnd) {
        lemma_link_end(ev, k + 1);
    }
}

pub open spec fn prepend_link(l: LinkView, rest: Option<Seq<LinkView>>) -> Option<Seq<LinkView>> {
    match rest {
        Some(r) => Some(seq![l] + r),
        None => None,
    }
}

/// The links found by reading the events `ev` of `content` from index `i`
/// on: every link start whose destination holds a `:`; for a link that is
/// no autolink, its text is the source from the start of the event after
/// the link start to the end of the last event before the link's end. A
/// link whose end comes right after its start has no text, as an autolink.
/// `None` where the events end inside such a link or its text range cannot
/// slice the content.
pub open spec fn links_from(content: Seq<char>, ev: Seq<MdEventView>, i: int) -> Option<Seq<LinkView>>
    decreases ev.len() - i,
{
    if i < 0 || i >= ev.len() {
        Some(seq![])
    } else {
        match ev[i].tag {
            MdTagView::Link { autolink, dest_url, title } => {
                if !dest_url.contains(':') {
                    links_from(content, ev, i + 1)
                } else if autolink {
                    prepend_link(
                        LinkView {
                            url: dest_url,
                            start: ev[i].start,
                            end: ev[i].end,
                            title: title,
                            text: None,
                        },
                        links_from(content, ev, i + 1),
                    )
                } else {
                    match link_end_from(ev, i + 1) {
                        None => None,
                        Some(j) => {
                            proof {
                                lemma_link_end(ev, i + 1);
                            }
                            let start = ev[i + 1].start;
                            let end = ev[j - 1].end;
                            if j == i + 1 {
                                prepend_link(
                                    LinkView {
                                        url: dest_url,
                                        start: ev[i].start,
                                        end: ev[i].end,
                                        title: title,
                                        text: None,
                                    },
                                    links_from(content, ev, j + 1),
                                )
                            } else if !valid_byte_range(utf8(content), start as int, end as int) {
                                None
                            } else {
                                prepend_link(
                                    LinkView {
                                        url: dest_url,
                                        start: ev[i].start,
                                        end: ev[i].end,
                                        title: title,
                                        text: Some(
                                            decode_utf8(
                                                utf8(content).subrange(start as int, end as int),
                                            ),
                                        ),
                                    },
                                    links_from(content, ev, j + 1),
                                )
                            }
                        },
                    }
                }
            },
            _ => links_from(content, ev, i + 1),
        }
    }
}

/// The event starts a link whose destination holds a `:`.
pub open spec fn starts_protocol_link(e: MdEventView) -> bool {
    match e.tag {
        MdTagView::Link { dest_url, .. } => dest_url.contains(':'),
        _ => false,
    }
}

/// The number of events from index `i` on that start a link whose
/// destination holds a `:`.
pub open spec fn protocol_link_count(ev: Seq<MdEventView>, i: int) -> int
    decreases ev.len() - i,
{
    if i < 0 || i >= ev.len() {
        0
    } else {
        (if starts_protocol_link(ev[i]) {
            1int
        } else {
            0int
        }) + protocol_link_count(ev, i + 1)
    }
}

/// No link starts inside the text of a link that is no autolink: its end
/// comes first.
pub open spec fn links_not_nested(ev: Seq<MdEventView>) -> bool {
    forall|p: int, q: int|
        #![trigger ev[p], ev[q]]
        0 <= p < q < ev.len() && (ev[p].tag matches MdTagView::Link { autolink, .. } && !autolink)
            && ev[q].tag is Link ==> exists|r: int| p < r < q && #[trigger] ev[r].tag is LinkEnd
}

proof fn lemma_count_skip(ev: Seq<MdEventView>, a: int, b: int)
    requires
        0 <= a <= b <= ev.len(),
        forall|q: int| a <= q < b ==> !(#[trigger] ev[q].tag is Link),
    ensures
        protocol_link_count(ev, a) == protocol_link_count(ev, b),
    decreases b - a,
{
    if a < b {
        lemma_count_skip(ev, a + 1, b);
    }
}

/// Every link whose destination holds a `:` is read, autolinks and inline
/// links alike, as long as no link starts inside the text of another.
pub proof fn lemma_every_link_read(content: Seq<char>, ev: Seq<MdEventView>, i: int)
    requires
        0 <= i,
        links_not_nested(ev),
    ensures
        links_from(content, ev, i) matches Some(ls) ==> ls.len() == protocol_link_count(ev, i),
    decreases ev.len() - i,
{
    if i < ev.len() {
        match ev[i].tag {
            MdTagView::Link { autolink, dest_url, title } => {
                if !dest_url.contains(':') || autolink {
                    lemma_every_link_read(content, ev, i + 1);
                } else {
                    lemma_link_end(ev, i + 1);
                    if let Some(j) = link_end_from(ev, i + 1) {
                        lemma_every_link_read(content, ev, j + 1);
                        assert forall|q: int| i + 1 <= q < j + 1 implies !(#[trigger] ev[q].tag is Link) by {
                            if ev[q].tag is Link {
                                assert(ev[i].tag matches MdTagView::Link { autolink, .. } && !autolink);
                                let r = choose|r: int| i < r < q && #[trigger] ev[r].tag is LinkEnd;
                            }
                        }
                        lemma_count_skip(ev, i + 1, j + 1);
                    }
                }
            },
            _ => {
                lemma_every_link_read(content, ev, i + 1);
            },
        }
    }
}

/// The links of a chapter source, or `None` where its events are malformed.
pub open spec fn content_links(content: Seq<char>) -> Option<Seq<LinkView>> {
    links_from(content, markdown_events(content), 0)
}

/// The Markdown events did not have the shape that a parser of the source
/// gives: a link did not end, or a range did not fit the source.
#[derive(Debug)]
pub enum ExtractError {
    MalformedEvents,
}

fn is_link_end(tag: &MdTag) -> (b: bool)
    ensures
        b == (tag is LinkEnd),
{
    match tag {
        MdTag::LinkEnd => true,
        _ => false,
    }
}

/// The links of the chapter's source, in source order.
pub fn extract_elements(chapter: &Chapter) -> (links: Result<Vec<Link>, ExtractError>)
    ensures
        match content_links(chapter.content@) {
            Some(ls) => links matches Ok(v) && links_view(v@) == ls,
            None => links is Err,
        },
{
    let content = chapter.content.as_str();
    let events = parse_markdown(content);
    let ghost ev = md_events_view(events@);
    let mut elements: Vec<Link> = Vec::new();
    let mut i: usize = 0;
    while i < events.len()
        invariant
            ev == md_events_view(events@),
            ev == markdown_events(content@),
            content@ == chapter.content@,
            i <= ev.len(),
            content_links(content@) == match links_from(content@, ev, i as int) {
                Some(r) => Some(links_view(elements@) + r),
                None => None,
            },
        decreases ev.len() - i,
    {
        let ghost before = elements@;
        let event = &events[i];
        match &event.tag {
            MdTag::Link { autolink, dest_url, title } => {
                match Url::new(dest_url.clone()) {
                    None => {
                        i = i + 1;
                    },
                    Some(url) => {
                        if *autolink {
                            let link = Link::new(
                                url,
                                Range { start: event.start, end: event.end },
                                title.clone(),
                                None,
                            );
                            elements.push(link);
                            proof {
                                assert(links_view(elements@) =~= links_view(before).push(link_view(link)));
                                if let Some(r) = links_from(content@, ev, i + 1) {
                                    assert(links_view(before) + (seq![link_view(link)] + r)
                                        =~= links_view(elements@) + r);
                                }
                            }
                            i = i + 1;
                        } else {
                            proof {
                                lemma_link_end(ev, i + 1);
                            }
                            let mut j = i + 1;
                            if j >= events.len() {
                                assert(links_from(content@, ev, i as int) is None);
                                return Err(ExtractError::MalformedEvents);
                            }
                            let start = events[j].start;
                            let mut end = events[j].end;
                            while !is_link_end(&events[j].tag)
                                invariant
                                    ev == md_events_view(events@),
                                    i + 1 <= j < ev.len(),
                                    start == ev[i + 1].start,
                                    end == (if j == i + 1 { ev[j as int].end } else { ev[j - 1].end }),
                                    link_end_from(ev, i + 1) == link_end_from(ev, j as int),
                                    i < ev.len(),
                                    ev[i as int] == md_event_view(*event),
                                    ev == markdown_events(content@),
                                    content@ == chapter.content@,
                                    !*autolink,
                                    dest_url@.contains(':'),
                                    event.tag == (MdTag::Link { autolink: *autolink, dest_url: *dest_url, title: *title }),
                                    content_links(content@) == match links_from(content@, ev, i as int) {
                                        Some(r) => Some(links_view(elements@) + r),
                                        None => None,
                                    },
                                decreases ev.len() - j,
                            {
                                end = events[j].end;
                                j = j + 1;
                                if j >= events.len() {
                                    proof {
                                        lemma_link_end(ev, j as int);
                                    }
                                    assert(links_from(content@, ev, i as int) is None);
                                    return Err(ExtractError::MalformedEvents);
                                }
                            }
                            proof {
                                lemma_link_end(ev, j as int);
                            }
                            assert(link_end_from(ev, i + 1) == Some(j as int));
                            let text: Option<String> = if j == i + 1 {
                                None
                            } else {
                                if !is_valid_byte_range(content, start, end) {
                                    assert(links_from(content@, ev, i as int) is None);
                                    return Err(ExtractError::MalformedEvents);
                                }
                                let owned: String = byte_slice(content, start, end).to_owned();
                                proof {
                                    vstd::utf8::encode_utf8_decode_utf8(owned@);
                                }
                                Some(owned)
                            };
                            let link = Link::new(
                                url,
                                Range { start: event.start, end: event.end },
                                title.clone(),
                                text,
                            );
                            elements.push(link);
                            proof {
                                assert(links_view(elements@) =~= links_view(before).push(link_view(link)));
                                if let Some(r) = links_from(content@, ev, j + 1) {
                                    assert(links_view(before) + (seq![link_view(link)] + r)
                                        =~= links_view(elements@) + r);
                                }
                            }
                            i = j + 1;
                        }
                    },
                }
            },
            _ => {
                i = i + 1;
            },
        }
    }
    assert(links_view(elements@) + Seq::<LinkView>::empty() =~= links_view(elements@));
    Ok(elements)
}

#[verifier::external_type_specification]
#[verifier::external_body]
#[verifier::reject_recursive_types(K)]
#[verifier::reject_recursive_types(V)]
#[verifier::reject_recursive_types(S)]
pub struct ExIndexMap<K, V, S>(IndexMap<K, V, S>);

/// The entries of a map from chapter paths to their links, in the map's
/// order, with the paths and links as mathematical values.
pub uninterp spec fn link_map_entries(m: IndexMap<String, Vec<Link>>) -> Seq<(Seq<char>, Seq<LinkView>)>;

/// The index of the first entry with key `k`, or the number of entries.
pub open spec fn key_index<V>(e: Seq<(Seq<char>, V)>, k: Seq<char>, i: int) -> int
    decreases e.len() - i,
{
    if i < 0 || i >= e.len() {
        e.len() as int
    } else if e[i].0 == k {
        i
    } else {
        key_index(e, k, i + 1)
    }
}

/// Insertion into an insertion-ordered map: an existing key keeps its
/// place and gets the new value; a new key comes last.
pub open spec fn entries_insert<V>(e: Seq<(Seq<char>, V)>, k: Seq<char>, v: V) -> Seq<(Seq<char>, V)> {
    if key_index(e, k, 0) < e.len() {
        e.update(key_index(e, k, 0), (k, v))
    } else {
        e.push((k, v))
    }
}

/// `IndexMap::new()`. Claimed: the map has no entries.
#[verifier::external_body]
pub(crate) fn link_map_new() -> (m: IndexMap<String, Vec<Link>>)
    ensures
        link_map_entries(m) == Seq::<(Seq<char>, Seq<LinkView>)>::empty(),
{
    IndexMap::new()
}

/// `IndexMap::insert`. Claimed, as its documentation says: an entry with an
/// equal key keeps its place and takes the new value; otherwise the entry
/// is added last.
#[verifier::external_body]
fn link_map_insert(m: &mut IndexMap<String, Vec<Link>>, key: String, links: Vec<Link>)
    ensures
        link_map_entries(*final(m)) == entries_insert(link_map_entries(*old(m)), key@, links_view(links@)),
{
    m.insert(key, links);
}

/// `IndexMap::len`. Claimed: the number of entries.
#[verifier::external_body]
pub(crate) fn link_map_len(m: &IndexMap<String, Vec<Link>>) -> (n: usize)
    ensures
        n == link_map_entries(*m).len(),
{
    m.len()
}

/// `IndexMap::get_index`. Claimed: the entry at that place in the order,
/// and `None` past the last one.
#[verifier::external_body]
pub(crate) fn link_map_get_index(m: &IndexMap<String, Vec<Link>>, i: usize) -> (e: Option<(&String, &Vec<Link>)>)
    ensures
        e is Some <==> i < link_map_entries(*m).len(),
        e matches Some(kv) ==> kv.0@ == link_map_entries(*m)[i as int].0 && links_view(kv.1@)
            == link_map_entries(*m)[i as int].1,
{
    m.get_index(i)
}

/// The map entries after reading the links of every chapter of `items`
/// that has a path, in summary order and through their nested items:
/// each such chapter's path is inserted with the links of its source.
/// `None` where a chapter's events are malformed.
pub open spec fn collect_links(
    items: Seq<BookItem>,
    acc: Seq<(Seq<char>, Seq<LinkView>)>,
) -> Option<Seq<(Seq<char>, Seq<LinkView>)>>
    decreases items,
{
    if items.len() == 0 {
        Some(acc)
    } else {
        match collect_links(items.drop_last(), acc) {
            None => None,
            Some(a) => match items.last() {
                BookItem::Chapter(c) => match c.path {
                    Some(p) => match content_links(c.content@) {
                        None => None,
                        Some(ls) => collect_links(c.sub_items@, entries_insert(a, p@, ls)),
                    },
                    None => Some(a),
                },
                _ => Some(a),
            },
        }
    }
}

proof fn lemma_collect_none(items: Seq<BookItem>, acc: Seq<(Seq<char>, Seq<LinkView>)>, j: int)
    requires
        0 <= j <= items.len(),
        collect_links(items.take(j), acc) is None,
    ensures
        collect_links(items, acc) is None,
    decreases items.len(),
{
    if j == items.len() {
        assert(items.take(j) =~= items);
    } else {
        assert(items.drop_last().take(j) =~= items.take(j));
        lemma_collect_none(items.drop_last(), acc, j);
    }
}

/// Reads the links of every chapter of `items` that has a path into
/// `map`, keyed by the path, as [`collect_links`] says.
pub fn extract_elements_recursively(
    items: &Vec<BookItem>,
    map: &mut IndexMap<String, Vec<Link>>,
) -> (r: Result<(), ExtractError>)
    ensures
        match collect_links(items@, link_map_entries(*old(map))) {
            Some(e) => r is Ok && link_map_entries(*final(map)) == e,
            None => r is Err,
        },
    decreases items@,
{
    let ghost e0 = link_map_entries(*map);
    let mut i: usize = 0;
    assert(items@.take(0) =~= Seq::<BookItem>::empty());
    while i < items.len()
        invariant
            i <= items@.len(),
            e0 == link_map_entries(*old(map)),
            collect_links(items@.take(i as int), e0) == Some(link_map_entries(*map)),
        decreases items@.len() - i,
    {
        proof {
            assert(items@.take(i + 1).drop_last() =~= items@.take(i as int));
            assert(items@.take(i + 1).last() == items@[i as int]);
        }
        match &items[i] {
            BookItem::Chapter(chapter) => {
                match &chapter.path {
                    Some(path) => {
                        let links = match extract_elements(chapter) {
                            Ok(links) => links,
                            Err(e) => {
                                proof {
                                    lemma_collect_none(items@, e0, i + 1);
                                }
                                return Err(e);
                            },
                        };
                        link_map_insert(map, path.clone(), links);
                        proof {
                            assert(decreases_to!(items@ => items@[i as int]));
                        }
                        match extract_elements_recursively(&chapter.sub_items, map) {
                            Ok(()) => {},
                            Err(e) => {
                                proof {
                                    lemma_collect_none(items@, e0, i + 1);
                                }
                                return Err(e);
                            },
                        }
                    },
                    None => {},
                }
            },
            _ => {},
        }
        i = i + 1;
    }
    assert(items@.take(i as int) =~= items@);
    Ok(())
}

} // verus!
