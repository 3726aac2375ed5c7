//! The index of resources: for each distinct URL, its newest capture.
//!
//! Records arrive page by page, in no particular order. The index keeps, for
//! every URL it has seen, the record with the greatest timestamp; a record
//! replaces the one kept only if it is strictly newer. Once all pages are in,
//! the index yields the download plan.
//!
//! Records are kept in the order in which their URLs first arrived. To find
//! the record of a URL without walking all of them, the index also keeps,
//! for each hash of a URL's text, the positions of the records whose URL has
//! that hash.

use crate::api::{capture_url, capture_url_of, entry_views, Entry, EntryView};
use crate::downloader::{DownloadJob, DownloadPlan, JobView};
use crate::error::MirrorError;
use crate::order::{in_order, sort_jobs, views};
use crate::paths::{beyond_prefix, relative_path, sanitize_path, sanitized};
use crate::text::{lex_lt, str_lt};
use crate::weburl::{WebUrl, WebUrlView};
use std::collections::hash_map::DefaultHasher;
use std::collections::HashMap;
use std::hash::Hasher;
use vstd::prelude::*;
use vstd::std_specs::hash::DefaultHasherAdditionalSpecFns;
use vstd::string::StringSliceAdditionalSpecFns;

verus! {

broadcast use vstd::std_specs::hash::group_hash_axioms;

/// Whether `s` holds a record of the URL written `href`. A resource is
/// known by the text of its URL and by nothing else.
pub open spec fn holds(s: Seq<EntryView>, href: Seq<char>) -> bool {
    exists|i: int| 0 <= i < s.len() && (#[trigger] s[i]).original.href == href
}

/// Whether no two records of `s` are of the same URL.
pub open spec fn distinct(s: Seq<EntryView>) -> bool {
    forall|i: int, j: int|
        0 <= i < j < s.len() ==> (#[trigger] s[i]).original.href != (#[trigger] s[j]).original.href
}

/// Whether the path of `e` is at least as long as the query's, so that the
/// query's path can be stripped from it.
pub open spec fn fits(query: WebUrlView, e: EntryView) -> bool {
    query.path.len() <= e.original.path.len()
}

/// Whether every record of `s` fits the query.
pub open spec fn all_fit(query: WebUrlView, s: Seq<EntryView>) -> bool {
    forall|i: int| 0 <= i < s.len() ==> fits(query, #[trigger] s[i])
}

/// The index `s` after the record `e` has arrived: `e` takes the place of
/// the record kept for its URL if it is strictly newer, is dropped if it is
/// not, and is added at the end if its URL is new.
pub open spec fn absorb(s: Seq<EntryView>, e: EntryView) -> Seq<EntryView> {
    if holds(s, e.original.href) {
        s.map_values(
            |r: EntryView|
                if r.original.href == e.original.href && lex_lt(r.timestamp, e.timestamp) {
                    e
                } else {
                    r
                },
        )
    } else {
        s.push(e)
    }
}

/// The index `s` after the records `es` have arrived in turn. Merging stops
/// at the first record that does not fit the query.
pub open spec fn merged(query: WebUrlView, s: Seq<EntryView>, es: Seq<EntryView>) -> Seq<
    EntryView,
>
    decreases es.len(),
{
    if es.len() == 0 {
        s
    } else if !fits(query, es[0]) {
        s
    } else {
        merged(query, absorb(s, es[0]), es.drop_first())
    }
}

/// The path of `e` past the path of the query.
pub open spec fn raw_path(query: WebUrlView, e: EntryView) -> Seq<char> {
    e.original.path.skip(query.path.len() as int)
}

/// The paths of the records of `s` past the path of the query.
pub open spec fn raw_paths(query: WebUrlView, s: Seq<EntryView>) -> Seq<Seq<char>> {
    s.map_values(|e: EntryView| raw_path(query, e))
}

/// The job that fetches the capture `e`. `dirs` lists the paths that are
/// directories on the local disk.
pub open spec fn job_of(query: WebUrlView, dirs: Seq<Seq<char>>, e: EntryView) -> JobView {
    let raw = raw_path(query, e);
    JobView {
        rel_path: sanitized(raw, dirs.contains(raw)),
        url: capture_url(e.timestamp, e.original.href),
    }
}

/// The jobs that fetch the captures of `s`, in the order of `s`.
pub open spec fn jobs_of(query: WebUrlView, dirs: Seq<Seq<char>>, s: Seq<EntryView>) -> Seq<
    JobView,
> {
    s.map_values(|e: EntryView| job_of(query, dirs, e))
}

/// The hash under which the index files a URL with the text `href`.
spec fn text_key(href: Seq<char>) -> u64 {
    DefaultHasher::spec_finish(seq![vstd::utf8::encode_utf8(href)])
}

/// Hashes the text of a URL.
fn key_of(href: &str) -> (key: u64)
    ensures
        key == text_key(href@),
{
    let mut hasher = DefaultHasher::new();
    hasher.write(href.as_bytes());
    assert(hasher@ =~= seq![href.spec_bytes()]);
    hasher.finish()
}

/// Files the position `i` under `key`.
fn file_under(slots: &mut HashMap<u64, Vec<usize>>, key: u64, i: usize)
    ensures
        final(slots)@.contains_key(key),
        final(slots)@[key]@ == (if old(slots)@.contains_key(key) {
            old(slots)@[key]@.push(i)
        } else {
            seq![i]
        }),
        forall|k: u64| k != key ==> final(slots)@.contains_key(k) == old(slots)@.contains_key(k),
        forall|k: u64| k != key && old(slots)@.contains_key(k) ==> final(slots)@[k] == old(slots)@[k],
{
    let mut bucket = match slots.remove(&key) {
        Some(bucket) => bucket,
        None => Vec::new(),
    };
    bucket.push(i);
    slots.insert(key, bucket);
}

/// A record kept by the index, with its path past the query's.
struct Slot {
    entry: Entry,
    raw: String,
}

/// The newest capture of every resource seen so far, among the records that
/// answer one query.
pub struct ResourceIndex {
    query: WebUrl,
    best: Vec<Slot>,
    slots: HashMap<u64, Vec<usize>>,
}

impl View for ResourceIndex {
    type V = Seq<EntryView>;

    /// The records kept, in the order in which their URLs first arrived.
    closed spec fn view(&self) -> Seq<EntryView> {
        Seq::new(self.best@.len(), |i: int| self.best@[i].entry@)
    }
}

/// Whether `paths` holds the text `p`.
fn listed(paths: &Vec<String>, p: &String) -> (r: bool)
    ensures
        r == paths.deep_view().contains(p@),
{
    let mut i: usize = 0;
    while i < paths.len()
        invariant
            i <= paths.len(),
            forall|k: int| 0 <= k < i ==> paths.deep_view()[k] != p@,
        decreases paths.len() - i,
    {
        if paths[i] == *p {
            assert(paths.deep_view()[i as int] == p@);
            return true;
        }
        i += 1;
    }
    false
}

impl ResourceIndex {
    /// The query that the records answer.
    pub closed spec fn query(&self) -> WebUrlView {
        self.query@
    }

    /// The invariant of the index: no URL is kept twice, every record kept
    /// fits the query, and every record is filed under the hash of its URL.
    pub closed spec fn wf(&self) -> bool {
        &&& distinct(self@)
        &&& forall|i: int|
            0 <= i < self.best@.len() ==> beyond_prefix(
                (#[trigger] self.best@[i]).entry@.original.path,
                self.query@.path,
            ) == Some(self.best@[i].raw@)
        &&& forall|i: int| 0 <= i < self.best@.len() ==> self.filed(#[trigger] self@[i], i)
        &&& forall|k: u64, j: int|
            self.slots@.contains_key(k) && 0 <= j < self.slots@[k]@.len() ==> (
            #[trigger] self.slots@[k]@[j]) < self.best@.len()
    }

    /// Whether position `i` is filed under the hash of the URL of `e`.
    closed spec fn filed(&self, e: EntryView, i: int) -> bool {
        let key = text_key(e.original.href);
        self.slots@.contains_key(key) && exists|t: int|
            0 <= t < self.slots@[key]@.len() && #[trigger] self.slots@[key]@[t] == i
    }

    /// The position of the record kept for the URL of `entry`, if one is.
    fn find(&self, entry: &Entry) -> (r: Option<usize>)
        requires
            self.wf(),
        ensures
            match r {
                Some(i) => i < self@.len() && self@[i as int].original.href == entry@.original.href,
                None => !holds(self@, entry@.original.href),
            },
    {
        let key = key_of(entry.original.as_str());
        match self.slots.get(&key) {
            None => {
                assert forall|i: int| 0 <= i < self@.len() implies (#[trigger] self@[i]).original.href
                    != entry@.original.href by {
                    assert(self.filed(self@[i], i));
                }
                None
            },
            Some(bucket) => {
                let mut j: usize = 0;
                while j < bucket.len()
                    invariant
                        self.wf(),
                        j <= bucket@.len(),
                        self.slots@.contains_key(key),
                        bucket == self.slots@[key],
                        key == text_key(entry@.original.href),
                        forall|t: int|
                            0 <= t < j ==> self@[(#[trigger] bucket@[t]) as int].original.href
                                != entry@.original.href,
                    decreases bucket.len() - j,
                {
                    let at = bucket[j];
                    assert(self.slots@[key]@[j as int] < self.best@.len());
                    if self.best[at].entry.original.same(&entry.original) {
                        return Some(at);
                    }
                    j += 1;
                }
                assert forall|i: int| 0 <= i < self@.len() implies (#[trigger] self@[i]).original.href
                    != entry@.original.href by {
                    if self@[i].original.href == entry@.original.href {
                        assert(self.filed(self@[i], i));
                        let t = choose|t: int|
                            0 <= t < bucket@.len() && #[trigger] bucket@[t] == i;
                        assert(self@[bucket@[t] as int].original.href != entry@.original.href);
                    }
                }
                None
            },
        }
    }

    /// What [`ResourceIndex::wf`] says of the records kept.
    pub proof fn lemma_wf(self)
        requires
            self.wf(),
        ensures
            distinct(self@),
            all_fit(self.query(), self@),
    {
        assert forall|i: int| 0 <= i < self@.len() implies fits(self.query(), #[trigger] self@[i]) by {
            assert(beyond_prefix(self.best@[i].entry@.original.path, self.query@.path) is Some);
        }
    }

    /// An empty index for records that answer `query`.
    pub fn new(query: WebUrl) -> (index: ResourceIndex)
        ensures
            index.wf(),
            index.query() == query@,
            index@ == Seq::<EntryView>::empty(),
    {
        let index = ResourceIndex { query, best: Vec::new(), slots: HashMap::new() };
        assert(index@ =~= Seq::<EntryView>::empty());
        index
    }

    /// The query that the records answer.
    pub fn url(&self) -> (u: &WebUrl)
        ensures
            u@ == self.query(),
    {
        &self.query
    }

    /// The number of resources seen.
    pub fn len(&self) -> (n: usize)
        ensures
            n == self@.len(),
    {
        self.best.len()
    }

    /// The newest record seen of the `i`-th resource.
    pub fn get(&self, i: usize) -> (e: Option<&Entry>)
        ensures
            match e {
                Some(e) => i < self@.len() && e@ == self@[i as int],
                None => i >= self@.len(),
            },
    {
        if i < self.best.len() {
            Some(&self.best[i].entry)
        } else {
            None
        }
    }

    /// Takes in one record. A record whose path is shorter than the query's
    /// is refused and leaves the index as it was.
    pub fn insert(&mut self, entry: Entry) -> (r: Result<(), MirrorError>)
        requires
            old(self).wf(),
        ensures
            final(self).wf(),
            final(self).query() == old(self).query(),
            match r {
                Ok(()) => fits(old(self).query(), entry@) && final(self)@ == absorb(
                    old(self)@,
                    entry@,
                ),
                Err(e) => e == MirrorError::OutsidePrefix && !fits(old(self).query(), entry@)
                    && final(self)@ == old(self)@,
            },
    {
        let raw = match relative_path(entry.original.path(), self.query.path()) {
            Some(raw) => raw,
            None => {
                return Err(MirrorError::OutsidePrefix);
            },
        };
        let ghost before = self@;
        let ghost e = entry@;
        match self.find(&entry) {
            Some(i) => {
                assert(holds(before, e.original.href));
                assert forall|k: int| 0 <= k < before.len() && k != i implies (
                #[trigger] before[k]).original.href != e.original.href by {
                    if k < i {
                        assert(before[k].original.href != before[i as int].original.href);
                    } else {
                        assert(before[i as int].original.href != before[k].original.href);
                    }
                }
                if str_lt(self.best[i].entry.timestamp.as_str(), entry.timestamp.as_str()) {
                    let ghost filed_before = self.slots@;
                    self.best.set(i, Slot { entry, raw });
                    proof {
                        assert(self@ =~= before.update(i as int, e));
                        assert(before.update(i as int, e) =~= absorb(before, e));
                        assert forall|a: int, b: int| 0 <= a < b < self@.len() implies (
                        #[trigger] self@[a]).original.href != (#[trigger] self@[b]).original.href by {
                            assert(self@[a].original.href == before[a].original.href);
                            assert(self@[b].original.href == before[b].original.href);
                        }
                        assert forall|k: int| 0 <= k < self.best@.len() implies self.filed(
                            #[trigger] self@[k],
                            k,
                        ) by {
                            assert(old(self).filed(before[k], k));
                            assert(self@[k].original.href == before[k].original.href);
                        }
                    }
                } else {
                    assert(before =~= absorb(before, e));
                }
                Ok(())
            },
            None => {
                let key = key_of(entry.original.as_str());
                let n = self.best.len();
                let ghost filed_before = self.slots@;
                self.best.push(Slot { entry, raw });
                file_under(&mut self.slots, key, n);
                proof {
                    assert(self@ =~= before.push(e));
                    assert forall|a: int, b: int| 0 <= a < b < self@.len() implies (
                    #[trigger] self@[a]).original.href != (#[trigger] self@[b]).original.href by {
                        if b < before.len() {
                            assert(self@[a] == before[a]);
                            assert(self@[b] == before[b]);
                        } else {
                            assert(self@[a] == before[a]);
                        }
                    }
                    assert forall|k: int| 0 <= k < self.best@.len() implies self.filed(
                        #[trigger] self@[k],
                        k,
                    ) by {
                        if k < n {
                            assert(self@[k] == before[k]);
                            assert(old(self).filed(before[k], k));
                            let kk = text_key(before[k].original.href);
                            if kk == key {
                                let t = choose|t: int|
                                    0 <= t < filed_before[kk]@.len() && #[trigger] filed_before[kk]@[t]
                                        == k;
                                assert(self.slots@[kk]@[t] == k);
                            }
                        } else {
                            assert(self.slots@[key]@[self.slots@[key]@.len() - 1] == n);
                        }
                    }
                    assert forall|k: u64, j: int|
                        self.slots@.contains_key(k) && 0 <= j < self.slots@[k]@.len() implies (
                    #[trigger] self.slots@[k]@[j]) < self.best@.len() by {
                        if k == key {
                            if filed_before.contains_key(key) && j < filed_before[key]@.len() {
                                assert(filed_before[key]@[j] < n);
                            }
                        } else {
                            assert(filed_before[k]@[j] < n);
                        }
                    }
                }
                Ok(())
            },
        }
    }

    /// Takes in the records of one page, in turn, up to the first that is
    /// refused.
    pub fn merge_page(&mut self, page: Vec<Entry>) -> (r: Result<(), MirrorError>)
        requires
            old(self).wf(),
        ensures
            final(self).wf(),
            final(self).query() == old(self).query(),
            final(self)@ == merged(old(self).query(), old(self)@, entry_views(page@)),
            r is Ok <==> all_fit(old(self).query(), entry_views(page@)),
            r matches Err(e) ==> e == MirrorError::OutsidePrefix,
    {
        let ghost all = page@;
        let ghost query = self.query();
        let ghost start = self@;
        assert(all.skip(0) =~= all);
        for entry in it: page
            invariant
                it.seq() == all,
                all == page@,
                query == old(self).query(),
                start == old(self)@,
                self.wf(),
                self.query() == query,
                all_fit(query, entry_views(all.take(it.index()))),
                merged(query, start, entry_views(all)) == merged(
                    query,
                    self@,
                    entry_views(all.skip(it.index())),
                ),
        {
            let ghost k = it.index();
            assert(entry == all[k]);
            let ghost e = entry@;
            proof {
                assert(entry_views(all.skip(k))[0] == e);
                assert(entry_views(all.skip(k)).drop_first() =~= entry_views(all.skip(k + 1)));
                assert(entry_views(all)[k] == e);
            }
            match self.insert(entry) {
                Ok(()) => {
                    proof {
                        assert forall|j: int| 0 <= j < k + 1 implies fits(
                            query,
                            #[trigger] entry_views(all.take(k + 1))[j],
                        ) by {
                            if j < k {
                                assert(entry_views(all.take(k + 1))[j] == entry_views(
                                    all.take(k),
                                )[j]);
                            }
                        }
                    }
                },
                Err(err) => {
                    return Err(err);
                },
            }
        }
        proof {
            assert(all.take(all.len() as int) =~= all);
            assert(entry_views(all.skip(all.len() as int)) =~= Seq::<EntryView>::empty());
        }
        Ok(())
    }

    /// The path of every resource past the query's, in the order of the
    /// index, before any is taken for a directory. A caller finds out which
    /// of them are directories on disk and hands those to
    /// [`ResourceIndex::plan`].
    pub fn candidates(&self) -> (paths: Vec<String>)
        requires
            self.wf(),
        ensures
            paths.deep_view() == raw_paths(self.query(), self@),
    {
        let mut paths: Vec<String> = Vec::new();
        let mut i: usize = 0;
        while i < self.best.len()
            invariant
                self.wf(),
                i <= self.best@.len(),
                paths.deep_view() == raw_paths(self.query(), self@.take(i as int)),
            decreases self.best.len() - i,
        {
            let ghost old_paths = paths.deep_view();
            paths.push(self.best[i].raw.clone());
            proof {
                assert(self@.take(i + 1) =~= self@.take(i as int).push(self@[i as int]));
                assert(paths.deep_view() =~= old_paths.push(self.best@[i as int].raw@));
                assert(paths.deep_view() =~= raw_paths(self.query(), self@.take(i + 1)));
            }
            i += 1;
        }
        assert(self@.take(i as int) =~= self@);
        paths
    }

    /// The download plan: one job for each resource, fetching its newest
    /// capture, in plan order. `dirs` lists the candidate paths that are
    /// directories on the local disk.
    pub fn plan(&self, dirs: &Vec<String>) -> (plan: DownloadPlan)
        requires
            self.wf(),
        ensures
            in_order(plan@),
            plan@.to_multiset() == jobs_of(self.query(), dirs.deep_view(), self@).to_multiset(),
            plan@.len() == self@.len(),
    {
        let mut jobs: Vec<DownloadJob> = Vec::new();
        let mut i: usize = 0;
        while i < self.best.len()
            invariant
                self.wf(),
                i <= self.best@.len(),
                views(jobs@) == jobs_of(self.query(), dirs.deep_view(), self@.take(i as int)),
            decreases self.best.len() - i,
        {
            let slot = &self.best[i];
            let raw = slot.raw.clone();
            let is_dir = listed(dirs, &raw);
            let job = DownloadJob {
                rel_path: sanitize_path(raw, is_dir),
                url: capture_url_of(slot.entry.timestamp.as_str(), slot.entry.original.as_str()),
            };
            let ghost old_jobs = jobs@;
            jobs.push(job);
            proof {
                assert(self@.take(i + 1) =~= self@.take(i as int).push(self@[i as int]));
                assert(views(jobs@) =~= views(old_jobs).push(job@));
                assert(job@ == job_of(self.query(), dirs.deep_view(), self@[i as int]));
                assert(views(jobs@) =~= jobs_of(
                    self.query(),
                    dirs.deep_view(),
                    self@.take(i + 1),
                ));
            }
            i += 1;
        }
        assert(self@.take(i as int) =~= self@);
        let sorted = sort_jobs(jobs);
        proof {
            assert(sorted.deep_view() =~= views(sorted@));
            vstd::seq_lib::to_multiset_len(views(sorted@));
            vstd::seq_lib::to_multiset_len(jobs_of(self.query(), dirs.deep_view(), self@));
        }
        DownloadPlan::new(sorted)
    }
}

} // verus!
