//! Rewrites of byte ranges of chapter sources, collected per chapter path
//! and applied to the book in order of their start.
use vstd::prelude::*;
use vstd::string::*;
use std::ops::Range;
use crate::assoc::StrMap;
use crate::book::{BookItem, Chapter, ChapterView, ItemView, items_view, item_view, chapter_view, same_outline, lemma_same_outline_refl};
use vstd::utf8::decode_utf8;
use crate::text::{is_valid_byte_range, utf8, valid_byte_range, lemma_utf8_concat, byte_slice, byte_slice_from};

verus! {

/// Replace the source bytes in `range` with `replacement`.
#[derive(Debug)]
pub struct Rewrite {
    pub range: Range<usize>,
    pub replacement: String,
}

/// What a rewrite holds, as mathematical values.
pub struct RewriteView {
    pub start: usize,
    pub end: usize,
    pub replacement: Seq<char>,
}

pub open spec fn rewrite_view(r: Rewrite) -> RewriteView {
    RewriteView { start: r.range.start, end: r.range.end, replacement: r.replacement@ }
}

/// The rewrites of each path, as mathematical values.
pub open spec fn rewrites_view(m: Map<Seq<char>, Seq<Rewrite>>) -> Map<Seq<char>, Seq<RewriteView>> {
    Map::new(|k: Seq<char>| m.contains_key(k), |k: Seq<char>| m[k].map_values(|r: Rewrite| rewrite_view(r)))
}

/// Taking the view commutes with inserting a path.
pub proof fn lemma_rewrites_view_insert(m: Map<Seq<char>, Seq<Rewrite>>, k: Seq<char>, v: Seq<Rewrite>)
    ensures
        rewrites_view(m.insert(k, v)) == rewrites_view(m).insert(k, v.map_values(|r: Rewrite| rewrite_view(r))),
{
    assert(rewrites_view(m.insert(k, v)) =~= rewrites_view(m).insert(k, v.map_values(|r: Rewrite| rewrite_view(r))));
}

/// The rewrites as mathematical values.
pub open spec fn rws_view(s: Seq<Rewrite>) -> Seq<RewriteView> {
    s.map_values(|r: Rewrite| rewrite_view(r))
}

/// Taking the view commutes with removing a path.
pub proof fn lemma_rewrites_view_remove(m: Map<Seq<char>, Seq<Rewrite>>, k: Seq<char>)
    ensures
        rewrites_view(m.remove(k)) == rewrites_view(m).remove(k),
        m.contains_key(k) ==> rewrites_view(m)[k] == rws_view(m[k]),
        rewrites_view(m).contains_key(k) == m.contains_key(k),
{
    assert(rewrites_view(m.remove(k)) =~= rewrites_view(m).remove(k));
}

/// `sorted` with `r` put after every element whose start is not after
/// that of `r` (scanning from the back, as an insertion sort does).
pub open spec fn insert_by_start(sorted: Seq<RewriteView>, r: RewriteView) -> Seq<RewriteView>
    decreases sorted.len(),
{
    if sorted.len() == 0 {
        seq![r]
    } else if sorted.last().start <= r.start {
        sorted.push(r)
    } else {
        insert_by_start(sorted.drop_last(), r).push(sorted.last())
    }
}

/// The rewrites ordered by the start of their range; rewrites with equal
/// starts keep the order in which they were given.
pub open spec fn sort_by_start(s: Seq<RewriteView>) -> Seq<RewriteView>
    decreases s.len(),
{
    if s.len() == 0 {
        s
    } else {
        insert_by_start(sort_by_start(s.drop_last()), s.last())
    }
}

/// The starts of the rewrites never go down.
pub open spec fn ordered_by_start(s: Seq<RewriteView>) -> bool {
    forall|i: int, j: int| 0 <= i <= j < s.len() ==> s[i].start <= s[j].start
}

proof fn lemma_insert_by_start(v: Seq<RewriteView>, r: RewriteView)
    requires
        ordered_by_start(v),
    ensures
        ordered_by_start(insert_by_start(v, r)),
        insert_by_start(v, r).to_multiset() == v.to_multiset().insert(r),
    decreases v.len(),
{
    broadcast use vstd::seq_lib::group_to_multiset_ensures;

    if v.len() == 0 {
        assert(seq![r] =~= v.push(r));
    } else if v.last().start <= r.start {
    } else {
        let p = v.drop_last();
        let w = insert_by_start(p, r);
        lemma_insert_by_start(p, r);
        assert(p.push(v.last()) =~= v);
        assert forall|i: int| 0 <= i < w.len() implies w[i].start <= v.last().start by {
            assert(w.contains(w[i]));
            assert(w.to_multiset().count(w[i]) > 0);
            if w[i] != r {
                assert(p.to_multiset().count(w[i]) > 0);
                assert(p.contains(w[i]));
                let k = choose|k: int| 0 <= k < p.len() && p[k] == w[i];
                assert(v[k] == p[k]);
            }
        }
        assert(w.push(v.last()).to_multiset() =~= p.to_multiset().insert(r).insert(v.last()));
        assert(v.to_multiset() =~= p.to_multiset().insert(v.last()));
    }
}

/// Sorting by start orders the rewrites by their start and keeps each of
/// them, as often as it was given.
pub proof fn lemma_sort_by_start(s: Seq<RewriteView>)
    ensures
        ordered_by_start(sort_by_start(s)),
        sort_by_start(s).to_multiset() == s.to_multiset(),
    decreases s.len(),
{
    broadcast use vstd::seq_lib::group_to_multiset_ensures;

    if s.len() > 0 {
        lemma_sort_by_start(s.drop_last());
        lemma_insert_by_start(sort_by_start(s.drop_last()), s.last());
        assert(s.drop_last().push(s.last()) =~= s);
    }
}

/// Splicing `rws` (in this order) into `content`, copying from `from` on,
/// slices the content only at valid ranges. With `skip_empty`, an empty
/// piece between two rewrites is not sliced at all.
pub open spec fn splice_ok(content: Seq<u8>, rws: Seq<RewriteView>, from: int, skip_empty: bool) -> bool
    decreases rws.len(),
{
    if rws.len() == 0 {
        valid_byte_range(content, from, content.len() as int)
    } else {
        let r = rws[0];
        &&& ((skip_empty && r.start == from) || valid_byte_range(
            content,
            from,
            r.start as int,
        ))
        &&& splice_ok(content, rws.drop_first(), r.end as int, skip_empty)
    }
}

/// The content with `rws` spliced in: the bytes from `from` up to the start
/// of the first rewrite, its replacement, and so on from its end; then the
/// rest of the content.
pub open spec fn splice(content: Seq<u8>, rws: Seq<RewriteView>, from: int) -> Seq<u8>
    decreases rws.len(),
{
    if rws.len() == 0 {
        content.subrange(from, content.len() as int)
    } else {
        let r = rws[0];
        let copied = if r.start == from {
            seq![]
        } else {
            content.subrange(from, r.start as int)
        };
        copied + utf8(r.replacement) + splice(
            content,
            rws.drop_first(),
            r.end as int,
        )
    }
}

proof fn lemma_insert_at(v: Seq<RewriteView>, r: RewriteView, j: int)
    requires
        0 <= j <= v.len(),
        forall|k: int| j <= k < v.len() ==> v[k].start > r.start,
        j == 0 || v[j - 1].start <= r.start,
    ensures
        insert_by_start(v, r) == v.take(j).push(r) + v.skip(j),
    decreases v.len(),
{
    if v.len() == 0 {
        assert(v.take(j).push(r) + v.skip(j) =~= seq![r]);
    } else if j == v.len() {
        assert(v.take(j) =~= v);
        assert(v.take(j).push(r) + v.skip(j) =~= v.push(r));
    } else {
        lemma_insert_at(v.drop_last(), r, j);
        assert(v.drop_last().take(j) =~= v.take(j));
        assert(v.skip(j) =~= v.drop_last().skip(j).push(v.last()));
        assert((v.take(j).push(r) + v.drop_last().skip(j)).push(v.last()) =~= v.take(j).push(r)
            + v.skip(j));
    }
}

/// Inserts `r` into `v` as [`insert_by_start`] says.
fn insert_rewrite(v: &mut Vec<Rewrite>, r: Rewrite)
    ensures
        rws_view(final(v)@) == insert_by_start(rws_view(old(v)@), rewrite_view(r)),
{
    let mut j = v.len();
    while j > 0 && v[j - 1].range.start > r.range.start
        invariant
            j <= v.len(),
            v@ == old(v)@,
            forall|k: int| j <= k < v.len() ==> v[k].range.start > r.range.start,
        decreases j,
    {
        j = j - 1;
    }
    proof {
        lemma_insert_at(rws_view(v@), rewrite_view(r), j as int);
    }
    v.insert(j, r);
    assert(rws_view(v@) =~= rws_view(old(v)@).take(j as int).push(rewrite_view(r)) + rws_view(old(v)@).skip(j as int));
}

/// Orders rewrites as [`sort_by_start`] says.
pub fn sort_rewrites(v: Vec<Rewrite>) -> (sorted: Vec<Rewrite>)
    ensures
        rws_view(sorted@) == sort_by_start(rws_view(v@)),
{
    let ghost orig = v@;
    let mut rest = v;
    let mut out: Vec<Rewrite> = Vec::new();
    let ghost mut k: int = 0;
    assert(orig.take(0) =~= Seq::<Rewrite>::empty());
    while rest.len() > 0
        invariant
            0 <= k,
            k + rest@.len() == orig.len(),
            rest@ == orig.skip(k),
            rws_view(out@) == sort_by_start(rws_view(orig.take(k))),
        decreases rest@.len(),
    {
        let r = rest.remove(0);
        assert(orig.take(k + 1).drop_last() =~= orig.take(k));
        assert(orig.take(k + 1).last() == r);
        assert(rws_view(orig.take(k + 1)).drop_last() =~= rws_view(orig.take(k)));
        insert_rewrite(&mut out, r);
        proof {
            k = k + 1;
        }
        assert(rest@ =~= orig.skip(k));
    }
    assert(orig.take(k) =~= orig);
    out
}

/// Splices `rws` into `content` as [`splice`] says, or gives `None` where
/// a range cannot slice the content.
pub fn splice_content(content: &str, rws: &Vec<Rewrite>, skip_empty: bool) -> (out: Option<String>)
    ensures
        out is Some <==> splice_ok(utf8(content@), rws_view(rws@), 0, skip_empty),
        out matches Some(o) ==> utf8(o@) == splice(utf8(content@), rws_view(rws@), 0),
{
    let ghost bytes = utf8(content@);
    let ghost rv = rws_view(rws@);
    let mut output = String::new();
    let mut last_copied: usize = 0;
    let mut i: usize = 0;
    assert(rv.skip(0) =~= rv);
    while i < rws.len()
        invariant
            i <= rws@.len(),
            bytes == utf8(content@),
            rv == rws_view(rws@),
            splice_ok(bytes, rv, 0, skip_empty) == splice_ok(
                bytes,
                rv.skip(i as int),
                last_copied as int,
                skip_empty,
            ),
            utf8(output@) + splice(bytes, rv.skip(i as int), last_copied as int) == splice(
                bytes,
                rv,
                0,
            ),
        decreases rws@.len() - i,
    {
        let r = &rws[i];
        let ghost rest = rv.skip(i as int);
        assert(rest[0] == rewrite_view(*r));
        assert(rest.drop_first() =~= rv.skip(i + 1));
        let ghost before = output@;
        if !(skip_empty && r.range.start == last_copied) {
            if !is_valid_byte_range(content, last_copied, r.range.start) {
                return None;
            }
            let piece = byte_slice(content, last_copied, r.range.start);
            output.append(piece);
            proof {
                lemma_utf8_concat(before, piece@);
                if r.range.start == last_copied {
                    assert(bytes.subrange(last_copied as int, r.range.start as int) =~= Seq::<
                        u8,
                    >::empty());
                }
            }
        } else {
            assert(output@ == before);
        }
        let ghost mid = output@;
        output.append(r.replacement.as_str());
        proof {
            lemma_utf8_concat(mid, r.replacement@);
            assert(utf8(output@) + splice(bytes, rv.skip(i + 1), r.range.end as int) =~= utf8(
                before,
            ) + splice(bytes, rest, last_copied as int));
        }
        last_copied = r.range.end;
        i = i + 1;
    }
    proof {
        vstd::utf8::encode_utf8_valid_utf8(content@);
        vstd::utf8::is_char_boundary_start_end_of_seq(bytes);
        reveal_with_fuel(vstd::utf8::is_char_boundary, 1);
    }
    if !content.is_char_boundary(last_copied) {
        return None;
    }
    let ghost before = output@;
    let piece = byte_slice_from(content, last_copied);
    output.append(piece);
    proof {
        lemma_utf8_concat(before, piece@);
    }
    Some(output)
}

/// The rewrites of each path, with the lists as sequences.
pub open spec fn seq_values(m: Map<Seq<char>, Vec<Rewrite>>) -> Map<Seq<char>, Seq<Rewrite>> {
    Map::new(|k: Seq<char>| m.contains_key(k), |k: Seq<char>| m[k]@)
}

/// The rewrites of the book, collected per chapter path.
#[derive(Debug)]
pub struct Rewrites {
    inner: StrMap<Vec<Rewrite>>,
}

impl View for Rewrites {
    type V = Map<Seq<char>, Seq<Rewrite>>;

    closed spec fn view(&self) -> Map<Seq<char>, Seq<Rewrite>> {
        seq_values(self.inner.map())
    }
}

impl Rewrites {
    /// The collection is well formed: each path has one entry.
    pub closed spec fn wf(&self) -> bool {
        self.inner.wf()
    }

    /// The rewrites of `path`, to be added to; a path without an entry gets
    /// an empty one.
    pub fn at(&mut self, path: String) -> (heap: &mut Vec<Rewrite>)
        requires
            old(self).wf(),
        ensures
            final(self).wf(),
            heap@ == (if old(self)@.contains_key(path@) {
                old(self)@[path@]
            } else {
                Seq::empty()
            }),
            final(self)@ == old(self)@.insert(path@, final(heap)@),
    {
        let ghost m0 = self.inner.map();
        let ghost p = path@;
        let heap = self.inner.value_mut(path, Vec::new());
        proof {
            assert(seq_values(m0.insert(p, *final(heap))) =~= seq_values(m0).insert(p, final(heap)@));
        }
        heap
    }

    fn remove(&mut self, path: &str) -> (rws: Option<Vec<Rewrite>>)
        requires
            old(self).wf(),
        ensures
            final(self).wf(),
            final(self)@ == old(self)@.remove(path@),
            match rws {
                Some(v) => old(self)@.contains_key(path@) && v@ == old(self)@[path@],
                None => !old(self)@.contains_key(path@),
            },
    {
        let ghost m0 = self.inner.map();
        let rws = self.inner.remove(path);
        assert(seq_values(m0.remove(path@)) =~= seq_values(m0).remove(path@));
        rws
    }

    /// Applies the rewrites to the chapters of `items`, as [`apply_items`]
    /// says: the rewrites of each chapter path are ordered by their start
    /// and spliced into its source, in summary order and through all nested
    /// items.
    pub fn apply(self, items: &mut Vec<BookItem>)
        requires
            self.wf(),
            apply_items(rewrites_view(self@), items_view(old(items)@)) is Some,
        ensures
            items_view(final(items)@) == apply_items(rewrites_view(self@), items_view(old(items)@)).unwrap().1,
    {
        let mut this = self;
        this.apply_mut(items);
    }

    /// [`Rewrites::apply`], which tells whether every range could slice
    /// its chapter; where one could not, the items are left partly
    /// rewritten.
    pub fn try_apply(self, items: &mut Vec<BookItem>) -> (ok: bool)
        requires
            self.wf(),
        ensures
            ok == apply_items(rewrites_view(self@), items_view(old(items)@)) is Some,
            ok ==> items_view(final(items)@) == apply_items(rewrites_view(self@), items_view(old(items)@)).unwrap().1,
    {
        let mut this = self;
        this.apply_mut(items)
    }

    fn apply_mut(&mut self, items: &mut Vec<BookItem>) -> (ok: bool)
        requires
            old(self).wf(),
        ensures
            final(self).wf(),
            ok == apply_items(rewrites_view(old(self)@), items_view(old(items)@)) is Some,
            ok ==> (rewrites_view(final(self)@), items_view(final(items)@)) == apply_items(
                rewrites_view(old(self)@),
                items_view(old(items)@),
            ).unwrap(),
        decreases old(items)@,
    {
        let mut rest: Vec<BookItem> = Vec::new();
        std::mem::swap(items, &mut rest);
        let ghost orig = rest@;
        let ghost m0 = rewrites_view(old(self)@);
        let ghost mut k: int = 0;
        proof {
            lemma_items_view_take(orig);
            lemma_items_view_len(orig);
            assert(orig.take(0) =~= Seq::<BookItem>::empty());
            assert(items@ =~= Seq::<BookItem>::empty());
        }
        while rest.len() > 0
            invariant
                0 <= k <= orig.len(),
                k + rest@.len() == orig.len(),
                rest@ == orig.skip(k),
                old(items)@ == orig,
                m0 == rewrites_view(old(self)@),
                self.wf(),
                items_view(orig).len() == orig.len(),
                forall|j: int| 0 <= j <= orig.len() ==> #[trigger] items_view(orig.take(j)) == items_view(orig).take(j),
                apply_items(m0, items_view(orig.take(k))) == Some((rewrites_view(self@), items_view(items@))),
            decreases rest@.len(),
        {
            let item = rest.remove(0);
            let ghost prev_items = items@;
            let ghost m1 = rewrites_view(self@);
            let ghost m1x = self@;
            let ghost iv = items_view(orig).take(k + 1);
            proof {
                assert(orig[k] == item);
                assert(iv.drop_last() =~= items_view(orig).take(k));
                lemma_items_view_index(orig, k);
                assert(iv.last() == item_view(item));
                assert(items_view(orig.take(k + 1)) == iv);
                assert(apply_items(m0, iv.drop_last()) == Some((m1, items_view(prev_items))));
            }
            match item {
                BookItem::Chapter(mut c) => {
                    let ghost c0 = c;
                    let ghost cv = chapter_view(c0);
                    assert(iv.last() == ItemView::Chapter(cv));
                    let has_path = c.path.is_some();
                    if has_path {
                        let path = c.path.as_ref().unwrap();
                        let ghost p = path@;
                        assert(cv.path == Some(p));
                        assert(cv.content == c0.content@);
                        assert(cv.sub_items == items_view(c0.sub_items@));
                        proof {
                            lemma_rewrites_view_remove(m1x, p);
                        }
                        match self.remove(path.as_str()) {
                            Some(rws) => {
                                let sorted = sort_rewrites(rws);
                                match splice_content(c.content.as_str(), &sorted, true) {
                                    Some(out) => {
                                        c.content = out;
                                        proof {
                                            vstd::utf8::encode_utf8_decode_utf8(c.content@);
                                            assert(c.content@ == rewritten_content(c0.content@, m1[p]));
                                        }
                                    },
                                    None => {
                                        proof {
                                            assert(apply_items(m0, iv) is None);
                                            lemma_apply_none(m0, items_view(orig), k + 1);
                                        }
                                        return false;
                                    },
                                }
                            },
                            None => {},
                        }
                        proof {
                            assert(decreases_to!(orig => orig[k]));
                            assert(decreases_to!(orig[k] => c0));
                            assert(decreases_to!(c0 => c0.sub_items));
                            assert(decreases_to!(c0.sub_items => c0.sub_items@));
                            assert(c.sub_items == c0.sub_items);
                            assert(decreases_to!(old(items)@ => c.sub_items@));
                        }
                        if !self.apply_mut(&mut c.sub_items) {
                            proof {
                                assert(apply_items(m0, iv) is None);
                                lemma_apply_none(m0, items_view(orig), k + 1);
                            }
                            return false;
                        }
                        proof {
                            assert(item_view(BookItem::Chapter(c)) == ItemView::Chapter(
                                ChapterView {
                                    content: c.content@,
                                    sub_items: items_view(c.sub_items@),
                                    ..cv
                                },
                            ));
                        }
                    } else {
                        assert(cv.path is None);
                        assert(c == c0);
                    }
                    items.push(BookItem::Chapter(c));
                    proof {
                        assert(items@.drop_last() =~= prev_items);
                    }
                },
                other => {
                    items.push(other);
                    proof {
                        assert(items@.drop_last() =~= prev_items);
                    }
                },
            }
            proof {
                k = k + 1;
                assert(rest@ =~= orig.skip(k));
            }
        }
        proof {
            assert(orig.take(k) =~= orig);
            assert(items_view(orig).take(k) =~= items_view(orig));
        }
        true
    }
}

impl Default for Rewrites {
    fn default() -> (r: Self)
        ensures
            r.wf(),
            r@ == Map::<Seq<char>, Seq<Rewrite>>::empty(),
    {
        let r = Rewrites { inner: StrMap::new() };
        assert(r@ =~= Map::<Seq<char>, Seq<Rewrite>>::empty());
        r
    }
}

proof fn lemma_items_view_index(s: Seq<BookItem>, i: int)
    requires
        0 <= i < s.len(),
    ensures
        items_view(s).len() == s.len(),
        items_view(s)[i] == item_view(s[i]),
    decreases s.len(),
{
    if i < s.len() - 1 {
        lemma_items_view_index(s.drop_last(), i);
    } else {
        lemma_items_view_len(s.drop_last());
    }
}

proof fn lemma_items_view_len(s: Seq<BookItem>)
    ensures
        items_view(s).len() == s.len(),
    decreases s.len(),
{
    if s.len() > 0 {
        lemma_items_view_len(s.drop_last());
    }
}

proof fn lemma_items_view_take(s: Seq<BookItem>)
    ensures
        forall|j: int| 0 <= j <= s.len() ==> #[trigger] items_view(s.take(j)) == items_view(s).take(j),
    decreases s.len(),
{
    if s.len() > 0 {
        lemma_items_view_take(s.drop_last());
        lemma_items_view_len(s);
        lemma_items_view_len(s.drop_last());
        assert forall|j: int| 0 <= j <= s.len() implies #[trigger] items_view(s.take(j)) == items_view(s).take(j) by {
            if j == s.len() {
                assert(s.take(j) =~= s);
                assert(items_view(s).take(j) =~= items_view(s));
            } else {
                assert(s.take(j) =~= s.drop_last().take(j));
                assert(items_view(s).take(j) =~= items_view(s.drop_last()).take(j));
            }
        }
    } else {
        assert forall|j: int| 0 <= j <= s.len() implies #[trigger] items_view(s.take(j)) == items_view(s).take(j) by {
            assert(s.take(j) =~= s);
            assert(items_view(s).take(j) =~= items_view(s));
        }
    }
}

/// The chapter content after splicing `rws` in order of their start.
pub open spec fn rewritten_content(content: Seq<char>, rws: Seq<RewriteView>) -> Seq<char> {
    decode_utf8(splice(utf8(content), sort_by_start(rws), 0))
}

/// Applying the rewrites of `m` to `items` in summary order: the map of the
/// rewrites still unused and the rewritten items, or `None` where a rewrite
/// range cannot be used to slice its chapter.
pub open spec fn apply_items(
    m: Map<Seq<char>, Seq<RewriteView>>,
    items: Seq<ItemView>,
) -> Option<(Map<Seq<char>, Seq<RewriteView>>, Seq<ItemView>)>
    decreases items,
{
    if items.len() == 0 {
        Some((m, seq![]))
    } else {
        match apply_items(m, items.drop_last()) {
            None => None,
            Some((m1, done)) => match items.last() {
                ItemView::Chapter(c) => match c.path {
                    None => Some((m1, done.push(items.last()))),
                    Some(p) => {
                        if m1.contains_key(p) && !splice_ok(
                            utf8(c.content),
                            sort_by_start(m1[p]),
                            0,
                            true,
                        ) {
                            None
                        } else {
                            let m2 = m1.remove(p);
                            let content = if m1.contains_key(p) {
                                rewritten_content(c.content, m1[p])
                            } else {
                                c.content
                            };
                            match apply_items(m2, c.sub_items) {
                                None => None,
                                Some((m3, subs)) => Some(
                                    (
                                        m3,
                                        done.push(
                                            ItemView::Chapter(
                                                ChapterView { content: content, sub_items: subs, ..c },
                                            ),
                                        ),
                                    ),
                                ),
                            }
                        }
                    },
                },
                other => Some((m1, done.push(other))),
            },
        }
    }
}

proof fn lemma_apply_none(m: Map<Seq<char>, Seq<RewriteView>>, items: Seq<ItemView>, n: int)
    requires
        0 <= n <= items.len(),
        apply_items(m, items.take(n)) is None,
    ensures
        apply_items(m, items) is None,
    decreases items.len(),
{
    if n == items.len() {
        assert(items.take(n) =~= items);
    } else {
        assert(items.drop_last().take(n) =~= items.take(n));
        lemma_apply_none(m, items.drop_last(), n);
    }
}

/// With no rewrites, applying leaves every item of the book as it is.
pub proof fn lemma_apply_nothing(items: Seq<ItemView>)
    ensures
        apply_items(Map::empty(), items) == Some((Map::<Seq<char>, Seq<RewriteView>>::empty(), items)),
    decreases items,
{
    if items.len() > 0 {
        let p = items.drop_last();
        lemma_apply_nothing(p);
        assert(p.push(items.last()) =~= items);
        match items.last() {
            ItemView::Chapter(c) => match c.path {
                None => {},
                Some(path) => {
                    let m = Map::<Seq<char>, Seq<RewriteView>>::empty();
                    assert(m.remove(path) =~= m);
                    assert(decreases_to!(items => items[items.len() - 1]));
                    lemma_apply_nothing(c.sub_items);
                    assert(ChapterView { content: c.content, sub_items: c.sub_items, ..c } == c);
                },
            },
            _ => {},
        }
    }
}

/// No path of `m` has a rewrite.
pub open spec fn no_rewrites_listed(m: Map<Seq<char>, Seq<RewriteView>>) -> bool {
    forall|k: Seq<char>| #[trigger] m.contains_key(k) ==> m[k].len() == 0
}

/// Where no path has a rewrite, applying leaves every item of the book as
/// it is.
pub proof fn lemma_apply_empty_rewrites(m: Map<Seq<char>, Seq<RewriteView>>, items: Seq<ItemView>)
    requires
        no_rewrites_listed(m),
    ensures
        apply_items(m, items) matches Some((m2, v)) && v == items && no_rewrites_listed(m2),
    decreases items,
{
    if items.len() > 0 {
        let p = items.drop_last();
        lemma_apply_empty_rewrites(m, p);
        assert(p.push(items.last()) =~= items);
        let m1 = apply_items(m, p)->Some_0.0;
        match items.last() {
            ItemView::Chapter(c) => match c.path {
                None => {},
                Some(path) => {
                    let bytes = utf8(c.content);
                    vstd::utf8::encode_utf8_valid_utf8(c.content);
                    vstd::utf8::is_char_boundary_start_end_of_seq(bytes);
                    vstd::utf8::encode_utf8_decode_utf8(c.content);
                    if m1.contains_key(path) {
                        let none = m1[path];
                        assert(none.len() == 0);
                        assert(sort_by_start(none) == none);
                        assert(bytes.subrange(0, bytes.len() as int) =~= bytes);
                        assert(rewritten_content(c.content, none) == c.content);
                    }
                    let m2 = m1.remove(path);
                    assert(no_rewrites_listed(m2));
                    assert(decreases_to!(items => items[items.len() - 1]));
                    lemma_apply_empty_rewrites(m2, c.sub_items);
                    assert(ChapterView { content: c.content, sub_items: c.sub_items, ..c } == c);
                },
            },
            _ => {},
        }
    }
}

/// Applying rewrites changes only the sources of chapters: the outline of
/// the book stays as it was.
pub proof fn lemma_apply_keeps_outline(m: Map<Seq<char>, Seq<RewriteView>>, items: Seq<ItemView>)
    ensures
        apply_items(m, items) matches Some((_, v)) ==> same_outline(items, v),
    decreases items,
{
    if items.len() > 0 {
        let p = items.drop_last();
        lemma_apply_keeps_outline(m, p);
        if let Some((m1, done)) = apply_items(m, p) {
            if let Some((m3, v)) = apply_items(m, items) {
                assert(v.drop_last() =~= done);
                if let ItemView::Chapter(c) = items.last() {
                    assert(decreases_to!(items => items[items.len() - 1]));
                    if let Some(path) = c.path {
                        lemma_apply_keeps_outline(m1.remove(path), c.sub_items);
                    } else {
                        lemma_same_outline_refl(c.sub_items);
                    }
                }
            }
        }
    }
}

/// Where the rewrites can be applied, the result has one item per item.
proof fn lemma_apply_len(m: Map<Seq<char>, Seq<RewriteView>>, items: Seq<ItemView>)
    ensures
        apply_items(m, items) matches Some((_, v)) ==> v.len() == items.len(),
{
    lemma_apply_keeps_outline(m, items);
}

/// An item that is no chapter makes no difference to what is applied:
/// with it put between `a` and `b`, the rewrites are applied as without it,
/// to the same chapters with the same outcome, and it stands in the result
/// where it was put.
pub proof fn lemma_apply_ignores_non_chapters(
    m: Map<Seq<char>, Seq<RewriteView>>,
    a: Seq<ItemView>,
    x: ItemView,
    b: Seq<ItemView>,
)
    requires
        !(x is Chapter),
    ensures
        match apply_items(m, a + b) {
            None => apply_items(m, a.push(x) + b) is None,
            Some((m2, v)) => apply_items(m, a.push(x) + b) == Some(
                (m2, v.take(a.len() as int).push(x) + v.skip(a.len() as int)),
            ),
        },
    decreases b.len(),
{
    if b.len() == 0 {
        assert(a + b =~= a);
        assert(a.push(x) + b =~= a.push(x));
        assert(a.push(x).drop_last() =~= a);
        lemma_apply_len(m, a);
        if let Some((m2, v)) = apply_items(m, a) {
            assert(v.take(a.len() as int) =~= v);
            assert(v.take(a.len() as int).push(x) + v.skip(a.len() as int) =~= v.push(x));
        }
    } else {
        let b1 = b.drop_last();
        let y = b.last();
        lemma_apply_ignores_non_chapters(m, a, x, b1);
        assert((a + b).drop_last() =~= a + b1);
        assert((a + b).last() == y);
        assert((a.push(x) + b).drop_last() =~= a.push(x) + b1);
        assert((a.push(x) + b).last() == y);
        lemma_apply_len(m, a + b1);
        lemma_apply_len(m, a + b);
        if let Some((m1, v1)) = apply_items(m, a + b1) {
            let w1 = v1.take(a.len() as int).push(x) + v1.skip(a.len() as int);
            assert(apply_items(m, a.push(x) + b1) == Some((m1, w1)));
            if let Some((m2, v)) = apply_items(m, a + b) {
                let z = v.last();
                assert(v == v1.push(z));
                assert(apply_items(m, a.push(x) + b) == Some((m2, w1.push(z))));
                assert(w1.push(z) =~= v.take(a.len() as int).push(x) + v.skip(a.len() as int));
            }
        }
    }
}

/// The ranges of `rws` lie in order and apart, from byte `from` on, within
/// `len` bytes.
pub open spec fn ranges_in_order(rws: Seq<RewriteView>, from: int, len: int) -> bool
    decreases rws.len(),
{
    if rws.len() == 0 {
        from <= len
    } else {
        from <= rws[0].start <= rws[0].end && ranges_in_order(rws.drop_first(), rws[0].end as int, len)
    }
}

/// The number of bytes that the ranges of `rws` cover.
pub open spec fn bytes_replaced(rws: Seq<RewriteView>) -> int
    decreases rws.len(),
{
    if rws.len() == 0 {
        0
    } else {
        (rws[0].end - rws[0].start) + bytes_replaced(rws.drop_first())
    }
}

/// The number of bytes that the replacements of `rws` hold.
pub open spec fn bytes_inserted(rws: Seq<RewriteView>) -> int
    decreases rws.len(),
{
    if rws.len() == 0 {
        0
    } else {
        utf8(rws[0].replacement).len() + bytes_inserted(rws.drop_first())
    }
}

/// Splicing rewrites whose ranges lie in order keeps every byte outside
/// the ranges: the result is as long as the content from `from` on, less
/// the bytes replaced, plus the bytes of the replacements; and it starts
/// with the bytes before the first range.
pub proof fn lemma_splice_keeps_the_rest(content: Seq<u8>, rws: Seq<RewriteView>, from: int)
    requires
        0 <= from,
        ranges_in_order(rws, from, content.len() as int),
    ensures
        splice(content, rws, from).len() == content.len() - from - bytes_replaced(rws) + bytes_inserted(rws),
        rws.len() > 0 ==> content.subrange(from, rws[0].start as int).is_prefix_of(splice(content, rws, from)),
        rws.len() == 0 ==> splice(content, rws, from) == content.subrange(from, content.len() as int),
    decreases rws.len(),
{
    if rws.len() > 0 {
        let r = rws[0];
        lemma_splice_keeps_the_rest(content, rws.drop_first(), r.end as int);
        lemma_ranges_bound(rws.drop_first(), r.end as int, content.len() as int);
        let copied = if r.start == from {
            Seq::<u8>::empty()
        } else {
            content.subrange(from, r.start as int)
        };
        assert(copied =~= content.subrange(from, r.start as int));
        let out = splice(content, rws, from);
        assert(out == copied + utf8(r.replacement) + splice(content, rws.drop_first(), r.end as int));
        assert(out.subrange(0, copied.len() as int) =~= copied);
    }
}

proof fn lemma_ranges_bound(rws: Seq<RewriteView>, from: int, len: int)
    requires
        ranges_in_order(rws, from, len),
    ensures
        from <= len,
        rws.len() > 0 ==> rws[0].end <= len,
        bytes_replaced(rws) <= len - from,
    decreases rws.len(),
{
    if rws.len() > 0 {
        lemma_ranges_bound(rws.drop_first(), rws[0].end as int, len);
    }
}

} // verus!
