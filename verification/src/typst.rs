//! The book-level pieces of the Typst preprocessor: which links name a
//! Typst file, and where that file lies in the book.
use vstd::prelude::*;
use vstd::string::*;
use std::ops::Range;
use std::path::{Path, PathBuf};
use indexmap::IndexMap;
use crate::extract::{Link, LinkView, link_view, links_view, link_map_entries, link_map_len, link_map_get_index, url_protocol, url_value};
use crate::text::{utf8, byte_slice_from, str_eq, trim_start, trim_start_spec};
use crate::crossref::rws_of;
use crate::rewrite::{Rewrite, RewriteView, Rewrites, rewrite_view, rewrites_view, lemma_rewrites_view_insert};

verus! {

/// What `Path::new(p).strip_prefix("/")` gives for the path `p`, as text:
/// the path without its root, where it has one.
pub uninterp spec fn path_without_root(p: Seq<char>) -> Option<Seq<char>>;

/// What `PathBuf::push` makes of `base` and `p`, as text.
pub uninterp spec fn path_joined(base: Seq<char>, p: Seq<char>) -> Seq<char>;

/// What `PathBuf::pop` leaves of `p`, as text.
pub uninterp spec fn path_popped(p: Seq<char>) -> Seq<char>;

/// `Path::strip_prefix` with the prefix `/`. Claimed: the result is
/// [`path_without_root`] of the path, for the platform the crate is built
/// for.
#[verifier::external_body]
fn strip_root(p: &str) -> (r: Option<String>)
    ensures
        match r {
            Some(s) => path_without_root(p@) == Some(s@),
            None => path_without_root(p@) is None,
        },
{
    match Path::new(p).strip_prefix("/") {
        Ok(rest) => Some(rest.to_string_lossy().into_owned()),
        Err(_) => None,
    }
}

/// `PathBuf::push`. Claimed: the result is [`path_joined`] of the two
/// paths, for the platform the crate is built for.
#[verifier::external_body]
fn push_path(base: &str, p: &str) -> (r: String)
    ensures
        r@ == path_joined(base@, p@),
{
    let mut path = PathBuf::from(base);
    path.push(p);
    path.to_string_lossy().into_owned()
}

/// `PathBuf::pop`. Claimed: the result is [`path_popped`] of the path,
/// for the platform the crate is built for.
#[verifier::external_body]
fn pop_path(p: &str) -> (r: String)
    ensures
        r@ == path_popped(p@),
{
    let mut path = PathBuf::from(p);
    path.pop();
    path.to_string_lossy().into_owned()
}

/// Where the file `file_path`, named in the chapter at `md_path`, lies:
/// under `book_root` either from the book's root, when `file_path` is
/// absolute, or else next to the chapter.
pub open spec fn book_path(book_root: Seq<char>, md_path: Seq<char>, file_path: Seq<char>) -> Seq<char> {
    match path_without_root(file_path) {
        Some(absolute) => path_joined(book_root, absolute),
        None => path_joined(book_root, path_joined(path_popped(md_path), file_path)),
    }
}

/// The Typst preprocessor of a book whose sources lie under `book_root`.
#[derive(Debug)]
pub struct Rewriter {
    pub book_root: String,
}

/// A Typst file to compile, and the source range of the chapter at `path`
/// that its rendering replaces.
#[derive(Debug)]
pub struct TypstJob {
    pub path: String,
    pub range: Range<usize>,
    pub file: String,
}

/// What a job holds, as mathematical values.
pub struct TypstJobView {
    pub path: Seq<char>,
    pub start: usize,
    pub end: usize,
    pub file: Seq<char>,
}

pub open spec fn typst_job_view(j: TypstJob) -> TypstJobView {
    TypstJobView { path: j.path@, start: j.range.start, end: j.range.end, file: j.file@ }
}

/// The jobs of the links of the chapter at `path`: one for each link with
/// the `typst` protocol, in order.
pub open spec fn typst_link_jobs(root: Seq<char>, path: Seq<char>, ls: Seq<LinkView>) -> Seq<TypstJobView>
    decreases ls.len(),
{
    if ls.len() == 0 {
        seq![]
    } else {
        let l = ls.last();
        let rest = typst_link_jobs(root, path, ls.drop_last());
        if url_protocol(l.url) == "typst"@ {
            rest.push(
                TypstJobView {
                    path,
                    start: l.start,
                    end: l.end,
                    file: book_path(root, path, url_value(l.url)),
                },
            )
        } else {
            rest
        }
    }
}

/// The jobs of all chapters, chapter after chapter.
pub open spec fn typst_jobs(root: Seq<char>, e: Seq<(Seq<char>, Seq<LinkView>)>) -> Seq<TypstJobView>
    decreases e.len(),
{
    if e.len() == 0 {
        seq![]
    } else {
        typst_jobs(root, e.drop_last()) + typst_link_jobs(root, e.last().0, e.last().1)
    }
}

/// The rewrites with an entry for every chapter path of `e`.
pub open spec fn with_paths(
    rws: Map<Seq<char>, Seq<RewriteView>>,
    e: Seq<(Seq<char>, Seq<LinkView>)>,
) -> Map<Seq<char>, Seq<RewriteView>>
    decreases e.len(),
{
    if e.len() == 0 {
        rws
    } else {
        let r1 = with_paths(rws, e.drop_last());
        r1.insert(e.last().0, rws_of(r1, e.last().0))
    }
}

/// The rewrites with, for each job `jobs[k]` in order, a rewrite of its
/// range with the rendering `outs[k]` added at its chapter.
pub open spec fn push_renderings(
    rws: Map<Seq<char>, Seq<RewriteView>>,
    jobs: Seq<TypstJobView>,
    outs: Seq<Seq<char>>,
) -> Map<Seq<char>, Seq<RewriteView>>
    decreases jobs.len(),
{
    if jobs.len() == 0 {
        rws
    } else {
        let r1 = push_renderings(rws, jobs.drop_last(), outs);
        let j = jobs.last();
        r1.insert(
            j.path,
            rws_of(r1, j.path).push(
                RewriteView { start: j.start, end: j.end, replacement: outs[jobs.len() - 1] },
            ),
        )
    }
}

/// The job of the link `l` of the chapter at `path`.
pub open spec fn job_of(root: Seq<char>, path: Seq<char>, l: LinkView) -> TypstJobView {
    TypstJobView { path, start: l.start, end: l.end, file: book_path(root, path, url_value(l.url)) }
}

/// The links of `ls` with the `typst` protocol.
pub open spec fn typst_links(ls: Seq<LinkView>) -> Seq<LinkView> {
    ls.filter(|l: LinkView| url_protocol(l.url) == "typst"@)
}

/// The number of links with the `typst` protocol over all chapters.
pub open spec fn typst_link_count(e: Seq<(Seq<char>, Seq<LinkView>)>) -> nat
    decreases e.len(),
{
    if e.len() == 0 {
        0
    } else {
        typst_link_count(e.drop_last()) + typst_links(e.last().1).len()
    }
}

proof fn lemma_link_jobs(root: Seq<char>, path: Seq<char>, ls: Seq<LinkView>)
    ensures
        forall|j: int|
            0 <= j < ls.len() && url_protocol(ls[j].url) == "typst"@ ==> typst_link_jobs(root, path, ls).contains(
                #[trigger] job_of(root, path, ls[j]),
            ),
        typst_link_jobs(root, path, ls).len() == typst_links(ls).len(),
    decreases ls.len(),
{
    reveal(Seq::filter);
    if ls.len() > 0 {
        let dl = ls.drop_last();
        lemma_link_jobs(root, path, dl);
        let a = typst_link_jobs(root, path, dl);
        let b = typst_link_jobs(root, path, ls);
        assert(typst_links(ls) == (if url_protocol(ls.last().url) == "typst"@ {
            typst_links(dl).push(ls.last())
        } else {
            typst_links(dl)
        }));
        assert forall|j: int| 0 <= j < ls.len() && url_protocol(ls[j].url) == "typst"@ implies b.contains(
            #[trigger] job_of(root, path, ls[j]),
        ) by {
            if j < dl.len() {
                assert(dl[j] == ls[j]);
                let k = choose|k: int| 0 <= k < a.len() && a[k] == job_of(root, path, dl[j]);
                assert(b[k] == a[k]);
            } else {
                assert(b[b.len() - 1] == job_of(root, path, ls[j]));
            }
        }
    }
}

/// Every link with the `typst` protocol, whatever its kind, gives a job
/// for its range and the file it names, and there are as many jobs as such
/// links.
pub proof fn lemma_typst_jobs(root: Seq<char>, e: Seq<(Seq<char>, Seq<LinkView>)>)
    ensures
        forall|i: int, j: int|
            0 <= i < e.len() && 0 <= j < e[i].1.len() && url_protocol(e[i].1[j].url) == "typst"@
                ==> typst_jobs(root, e).contains(#[trigger] job_of(root, e[i].0, e[i].1[j])),
        typst_jobs(root, e).len() == typst_link_count(e),
    decreases e.len(),
{
    if e.len() > 0 {
        let de = e.drop_last();
        let n = e.len() - 1;
        lemma_typst_jobs(root, de);
        lemma_link_jobs(root, e[n].0, e[n].1);
        let a = typst_jobs(root, de);
        let b = typst_link_jobs(root, e[n].0, e[n].1);
        let c = typst_jobs(root, e);
        assert(c == a + b);
        assert forall|i: int, j: int|
            0 <= i < e.len() && 0 <= j < e[i].1.len() && url_protocol(e[i].1[j].url) == "typst"@
                implies c.contains(#[trigger] job_of(root, e[i].0, e[i].1[j])) by {
            if i < n {
                assert(de[i] == e[i]);
                let k = choose|k: int| 0 <= k < a.len() && a[k] == job_of(root, de[i].0, de[i].1[j]);
                assert(c[k] == a[k]);
            } else {
                let k = choose|k: int| 0 <= k < b.len() && b[k] == job_of(root, e[n].0, e[n].1[j]);
                assert(c[a.len() + k] == b[k]);
            }
        }
    }
}

impl Rewriter {
    /// Where the file `file_path`, named in the chapter at `md_path`, lies,
    /// as [`book_path`] says.
    pub fn to_book_path(&self, md_path: &str, file_path: &str) -> (r: String)
        ensures
            r@ == book_path(self.book_root@, md_path@, file_path@),
    {
        match strip_root(file_path) {
            Some(absolute) => push_path(self.book_root.as_str(), absolute.as_str()),
            None => {
                let relative_path = pop_path(md_path);
                let relative_path = push_path(relative_path.as_str(), file_path);
                push_path(self.book_root.as_str(), relative_path.as_str())
            },
        }
    }

    /// Puts the renderings of the Typst files into `rewrites`: every
    /// chapter path of `map` gets an entry, then the job at place `k` of
    /// [`typst_jobs`] a rewrite of its range with `outputs[k]`. Where there
    /// are not as many renderings as jobs, nothing is done and `false`
    /// comes back.
    pub fn create_typst_rewrites(
        &self,
        map: &IndexMap<String, Vec<Link>>,
        outputs: Vec<String>,
        rewrites: &mut Rewrites,
    ) -> (ok: bool)
        requires
            old(rewrites).wf(),
        ensures
            final(rewrites).wf(),
            ok == (outputs@.len() == typst_jobs(self.book_root@, link_map_entries(*map)).len()),
            ok ==> rewrites_view(final(rewrites)@) == push_renderings(
                with_paths(rewrites_view(old(rewrites)@), link_map_entries(*map)),
                typst_jobs(self.book_root@, link_map_entries(*map)),
                outputs@.map_values(|o: String| o@),
            ),
            !ok ==> final(rewrites)@ == old(rewrites)@,
    {
        let ghost e = link_map_entries(*map);
        let ghost rv0 = rewrites_view(rewrites@);
        let jobs = self.create_typst_jobs(map);
        let ghost jv = jobs@.map_values(|j: TypstJob| typst_job_view(j));
        if outputs.len() != jobs.len() {
            return false;
        }
        let n = link_map_len(map);
        let mut i: usize = 0;
        assert(e.take(0) =~= Seq::<(Seq<char>, Seq<LinkView>)>::empty());
        while i < n
            invariant
                i <= n,
                n == e.len(),
                e == link_map_entries(*map),
                rewrites.wf(),
                rewrites_view(rewrites@) == with_paths(rv0, e.take(i as int)),
            decreases n - i,
        {
            let (path, _) = link_map_get_index(map, i).unwrap();
            let ghost before = rewrites@;
            let heap = rewrites.at(path.clone());
            proof {
                assert(e.take(i + 1).drop_last() =~= e.take(i as int));
                lemma_rewrites_view_insert(before, path@, heap@);
                assert(rws_of(rewrites_view(before), path@) == heap@.map_values(|r: Rewrite| rewrite_view(r)));
            }
            i = i + 1;
        }
        assert(e.take(i as int) =~= e);
        let ghost rv1 = rewrites_view(rewrites@);
        let ghost outs = outputs@.map_values(|o: String| o@);
        let mut k: usize = 0;
        assert(jv.take(0) =~= Seq::<TypstJobView>::empty());
        while k < jobs.len()
            invariant
                k <= jobs@.len(),
                jobs@.len() == outputs@.len(),
                jv == jobs@.map_values(|j: TypstJob| typst_job_view(j)),
                outs == outputs@.map_values(|o: String| o@),
                rewrites.wf(),
                rewrites_view(rewrites@) == push_renderings(rv1, jv.take(k as int), outs),
            decreases jobs@.len() - k,
        {
            let job = &jobs[k];
            let rw = Rewrite {
                range: Range { start: job.range.start, end: job.range.end },
                replacement: outputs[k].clone(),
            };
            let ghost before = rewrites@;
            let heap = rewrites.at(job.path.clone());
            let ghost h0 = heap@;
            heap.push(rw);
            proof {
                let t = jv.take(k + 1);
                assert(t.drop_last() =~= jv.take(k as int));
                assert(t.last() == typst_job_view(*job));
                assert(outs[k as int] == rw.replacement@);
                lemma_rewrites_view_insert(before, job.path@, h0.push(rw));
                assert(h0.push(rw).map_values(|r: Rewrite| rewrite_view(r)) =~= h0.map_values(
                    |r: Rewrite| rewrite_view(r),
                ).push(rewrite_view(rw)));
                assert(rws_of(rewrites_view(before), job.path@) == h0.map_values(|r: Rewrite| rewrite_view(r)));
            }
            k = k + 1;
        }
        assert(jv.take(k as int) =~= jv);
        true
    }

    /// The Typst files that the links of `map` name, as [`typst_jobs`]
    /// says.
    pub fn create_typst_jobs(&self, map: &IndexMap<String, Vec<Link>>) -> (jobs: Vec<TypstJob>)
        ensures
            jobs@.map_values(|j: TypstJob| typst_job_view(j)) == typst_jobs(
                self.book_root@,
                link_map_entries(*map),
            ),
    {
        let ghost e = link_map_entries(*map);
        let ghost root = self.book_root@;
        let mut jobs: Vec<TypstJob> = Vec::new();
        let n = link_map_len(map);
        let mut i: usize = 0;
        assert(e.take(0) =~= Seq::<(Seq<char>, Seq<LinkView>)>::empty());
        assert(jobs@.map_values(|j: TypstJob| typst_job_view(j)) =~= Seq::<TypstJobView>::empty());
        while i < n
            invariant
                i <= n,
                n == e.len(),
                e == link_map_entries(*map),
                root == self.book_root@,
                jobs@.map_values(|j: TypstJob| typst_job_view(j)) == typst_jobs(root, e.take(i as int)),
            decreases n - i,
        {
            let (path, links) = link_map_get_index(map, i).unwrap();
            let ghost ls = e[i as int].1;
            let ghost base = jobs@.map_values(|j: TypstJob| typst_job_view(j));
            proof {
                assert(e.take(i + 1).drop_last() =~= e.take(i as int));
                assert(ls == links_view(links@));
                assert(ls.take(0) =~= Seq::<LinkView>::empty());
                assert(base + Seq::<TypstJobView>::empty() =~= base);
            }
            let mut j: usize = 0;
            while j < links.len()
                invariant
                    j <= links@.len(),
                    ls == links_view(links@),
                    root == self.book_root@,
                    jobs@.map_values(|j: TypstJob| typst_job_view(j)) == base + typst_link_jobs(
                        root,
                        path@,
                        ls.take(j as int),
                    ),
                decreases links@.len() - j,
            {
                let link = &links[j];
                proof {
                    assert(ls[j as int] == link_view(*link));
                    assert(ls.take(j + 1).drop_last() =~= ls.take(j as int));
                    assert(ls.take(j + 1).last() == link_view(*link));
                }
                if str_eq(link.url.protocol(), "typst") {
                    let file = self.to_book_path(path.as_str(), link.url.value());
                    let job = TypstJob {
                        path: path.clone(),
                        range: Range { start: link.full_range.start, end: link.full_range.end },
                        file,
                    };
                    let ghost prev = jobs@;
                    jobs.push(job);
                    assert(jobs@.map_values(|j: TypstJob| typst_job_view(j)) =~= prev.map_values(
                        |j: TypstJob| typst_job_view(j),
                    ).push(typst_job_view(job)));
                }
                j = j + 1;
            }
            proof {
                assert(ls.take(j as int) =~= ls);
                assert(e[i as int].0 == path@);
            }
            i = i + 1;
        }
        assert(e.take(i as int) =~= e);
        jobs
    }
}

/// What `extract_rest` gives: the text of `info` after as many bytes as
/// `prefix` has, without leading white space.
pub open spec fn rest_after(prefix: Seq<char>, info: Seq<char>) -> Seq<char> {
    trim_start_spec(vstd::utf8::decode_utf8(utf8(info).skip(utf8(prefix).len() as int)))
}

/// `s` without the prefix `p`, where `s` starts with it (what
/// `str::strip_prefix` gives).
fn strip_prefix<'a>(s: &'a str, p: &str) -> (r: Option<&'a str>)
    ensures
        r is Some <==> p@.is_prefix_of(s@),
        r matches Some(x) ==> x@ == s@.skip(p@.len() as int),
{
    let n = s.unicode_len();
    let m = p.unicode_len();
    if m <= n && str_eq(s.substring_char(0, m), p) {
        Some(s.substring_char(m, n))
    } else {
        proof {
            if p@.is_prefix_of(s@) {
                assert(s@.subrange(0, m as int) =~= p@);
            }
        }
        None
    }
}

/// The rest of a code block's info string after the language `prefix`,
/// without leading white space. The prefix is stripped from itself, which
/// always leaves nothing, so the rest is always given, whatever `info`
/// starts with.
pub fn extract_rest<'a>(prefix: &str, info: &'a str) -> (r: Option<&'a str>)
    requires
        utf8(prefix@).len() <= utf8(info@).len(),
        utf8(info@).len() <= usize::MAX,
        vstd::utf8::is_char_boundary(utf8(info@), utf8(prefix@).len() as int),
    ensures
        r matches Some(x) && x@ == rest_after(prefix@, info@),
{
    let stripped_prefix = match strip_prefix(prefix, prefix) {
        Some(s) => s,
        None => {
            assert(prefix@.is_prefix_of(prefix@));
            return None;
        },
    };
    assert(stripped_prefix@.len() == 0);
    if stripped_prefix.unicode_len() == 0 {
        let len = prefix.len();
        proof {
            vstd::utf8::encode_utf8_valid_utf8(info@);
            assert(prefix.spec_bytes() == utf8(prefix@));
            assert(len as int == utf8(prefix@).len());
        }
        let rest = byte_slice_from(info, len);
        proof {
            vstd::utf8::encode_utf8_decode_utf8(rest@);
        }
        Some(trim_start(rest))
    } else {
        None
    }
}

} // verus!
