//! The archive's index: what to ask it, and how to read its answers.
//!
//! The index is asked page by page for the captures under a URL prefix. Each
//! answer is a JSON array of rows of strings. The first row is a header; each
//! further row holds a timestamp and the URL captured. An empty answer means
//! that the page holds nothing. Rows for other hosts than the query's are
//! passed over.

use crate::error::MirrorError;
use crate::index::{all_fit, merged, ResourceIndex};
use crate::schedule::{Directive, Progress, Scheduler};
use crate::text::{decimal, decimal_text};
use crate::weburl::{parsed_url, WebUrl, WebUrlView};
use vstd::prelude::*;

verus! {

/// Makes `serde_json::Error` known as an opaque type. Nothing is said of its
/// values: a failed decoding is only told apart from a successful one.
#[verifier::external_type_specification]
#[verifier::external_body]
pub struct ExJsonError(serde_json::Error);

/// One capture of one resource.
#[derive(Debug, PartialEq, Eq)]
pub struct Entry {
    /// When the capture was taken: digits, most significant first, so that
    /// later captures sort after earlier ones.
    pub timestamp: String,
    /// The URL that was captured.
    pub original: WebUrl,
}

/// The mathematical content of an [`Entry`].
pub struct EntryView {
    pub timestamp: Seq<char>,
    pub original: WebUrlView,
}

impl View for Entry {
    type V = EntryView;

    open spec fn view(&self) -> EntryView {
        EntryView { timestamp: self.timestamp@, original: self.original@ }
    }
}

impl DeepView for Entry {
    type V = EntryView;

    open spec fn deep_view(&self) -> EntryView {
        self@
    }
}

impl Clone for Entry {
    fn clone(&self) -> (r: Entry)
        ensures
            r@ == self@,
    {
        Entry { timestamp: self.timestamp.clone(), original: self.original.clone() }
    }
}

/// The views of a sequence of entries.
pub open spec fn entry_views(entries: Seq<Entry>) -> Seq<EntryView> {
    entries.map_values(|e: Entry| e@)
}

/// Where the capture of `href` taken at `timestamp` is fetched from. The
/// `id_` behind the timestamp asks the archive for the bytes as they were
/// captured, with nothing rewritten.
pub open spec fn capture_url(timestamp: Seq<char>, href: Seq<char>) -> Seq<char> {
    "https://web.archive.org/web/"@ + timestamp + "id_/"@ + href
}

/// The URL from which the capture of `href` taken at `timestamp` is fetched.
pub fn capture_url_of(timestamp: &str, href: &str) -> (url: String)
    ensures
        url@ == capture_url(timestamp@, href@),
{
    let mut url = "https://web.archive.org/web/".to_owned();
    url.append(timestamp);
    url.append("id_/");
    url.append(href);
    url
}

/// Where the index is asked.
pub open spec fn endpoint_text() -> Seq<char> {
    "https://web.archive.org/cdx/search/cdx"@
}

/// The address of the index.
pub fn endpoint() -> (s: &'static str)
    ensures
        s@ == endpoint_text(),
{
    "https://web.archive.org/cdx/search/cdx"
}

/// The views of a list of parameters.
pub open spec fn pair_views(pairs: Seq<(String, String)>) -> Seq<(Seq<char>, Seq<char>)> {
    pairs.map_values(|p: (String, String)| (p.0@, p.1@))
}

/// The parameters that ask for page `page` of the captures under `url`:
/// every capture whose URL starts with `url`, answered with status 200, one
/// per distinct content, timestamp and URL only, as JSON and uncompressed.
pub open spec fn page_query(url: Seq<char>, page: nat) -> Seq<(Seq<char>, Seq<char>)> {
    seq![
        ("url"@, url),
        ("fl"@, "timestamp,original"@),
        ("matchType"@, "prefix"@),
        ("gzip"@, "false"@),
        ("output"@, "json"@),
        ("filter"@, "statuscode:200"@),
        ("collapse"@, "digest"@),
        ("page"@, decimal_text(page)),
    ]
}

fn pair(name: &str, value: &str) -> (p: (String, String))
    ensures
        p.0@ == name@,
        p.1@ == value@,
{
    (name.to_owned(), value.to_owned())
}

/// The parameters of the request for page `page` of the captures under
/// `url`, in the order in which they are sent.
pub fn query_params(url: &str, page: usize) -> (params: Vec<(String, String)>)
    ensures
        pair_views(params@) == page_query(url@, page as nat),
{
    let number = decimal(page);
    let mut params: Vec<(String, String)> = Vec::new();
    params.push(pair("url", url));
    params.push(pair("fl", "timestamp,original"));
    params.push(pair("matchType", "prefix"));
    params.push(pair("gzip", "false"));
    params.push(pair("output", "json"));
    params.push(pair("filter", "statuscode:200"));
    params.push(pair("collapse", "digest"));
    params.push(pair("page", number.as_str()));
    assert(pair_views(params@) =~= page_query(url@, page as nat));
    params
}

/// What `serde_json` makes of `body` when it is asked for a list of lists of
/// strings: the rows, or `None` where `body` is not such a JSON text.
pub uninterp spec fn json_rows(body: Seq<char>) -> Option<Seq<Seq<Seq<char>>>>;

/// Calls `serde_json::from_str` for a `Vec<Vec<String>>`. The contract only
/// names the outcome: the same text always decodes to the same rows, or
/// always fails.
#[verifier::external_body]
fn decode_rows(body: &str) -> (r: Result<Vec<Vec<String>>, serde_json::Error>)
    ensures
        match r {
            Ok(rows) => json_rows(body@) == Some(rows.deep_view()),
            Err(_) => json_rows(body@) is None,
        },
{
    serde_json::from_str::<Vec<Vec<String>>>(body)
}

/// The record that a row stands for. A row must have exactly two fields, the
/// second an absolute URL.
pub open spec fn row_entry(row: Seq<Seq<char>>) -> Result<EntryView, MirrorError> {
    if row.len() != 2 {
        Err(MirrorError::MalformedRow)
    } else {
        match parsed_url(row[1]) {
            Some(u) => Ok(EntryView { timestamp: row[0], original: u }),
            None => Err(MirrorError::InvalidUrl),
        }
    }
}

/// The records that `rows` stand for, in order, or the failure of the first
/// row that stands for none.
pub open spec fn row_entries(rows: Seq<Seq<Seq<char>>>) -> Result<Seq<EntryView>, MirrorError>
    decreases rows.len(),
{
    if rows.len() == 0 {
        Ok(Seq::empty())
    } else {
        match row_entries(rows.drop_last()) {
            Err(e) => Err(e),
            Ok(entries) => match row_entry(rows.last()) {
                Err(e) => Err(e),
                Ok(entry) => Ok(entries.push(entry)),
            },
        }
    }
}

/// Whether a record is of the host that the query names.
pub open spec fn of_host(query: WebUrlView) -> spec_fn(EntryView) -> bool {
    |e: EntryView| e.original.host == query.host
}

/// The rows of an answer behind its header row.
pub open spec fn data_rows(rows: Seq<Seq<Seq<char>>>) -> Seq<Seq<Seq<char>>> {
    if rows.len() == 0 {
        rows
    } else {
        rows.skip(1)
    }
}

/// The records that the rows of one answer yield for `query`: the header row
/// is dropped, every other row must stand for a record, and the records of
/// other hosts are left out.
pub open spec fn rows_outcome(query: WebUrlView, rows: Seq<Seq<Seq<char>>>) -> Result<
    Seq<EntryView>,
    MirrorError,
> {
    match row_entries(data_rows(rows)) {
        Err(e) => Err(e),
        Ok(entries) => Ok(entries.filter(of_host(query))),
    }
}

/// The records that one answer of the index yields for `query`.
pub open spec fn page_outcome(query: WebUrlView, body: Seq<char>) -> Result<
    Seq<EntryView>,
    MirrorError,
> {
    if body.len() == 0 {
        Ok(Seq::empty())
    } else {
        match json_rows(body) {
            None => Err(MirrorError::MalformedJson),
            Some(rows) => rows_outcome(query, rows),
        }
    }
}

/// Whether `r` is `expected`, the entries taken by their views.
pub open spec fn yields(r: Result<Vec<Entry>, MirrorError>, expected: Result<Seq<EntryView>, MirrorError>) -> bool {
    match r {
        Ok(entries) => expected == Ok::<Seq<EntryView>, MirrorError>(entry_views(entries@)),
        Err(e) => expected == Err::<Seq<EntryView>, MirrorError>(e),
    }
}

/// Reads one row.
pub fn entry_from_row(row: &Vec<String>) -> (r: Result<Entry, MirrorError>)
    ensures
        match r {
            Ok(entry) => row_entry(row.deep_view()) == Ok::<EntryView, MirrorError>(entry@),
            Err(e) => row_entry(row.deep_view()) == Err::<EntryView, MirrorError>(e),
        },
{
    if row.len() != 2 {
        return Err(MirrorError::MalformedRow);
    }
    assert(row.deep_view()[0] == row@[0]@);
    assert(row.deep_view()[1] == row@[1]@);
    match WebUrl::parse(row[1].as_str()) {
        Ok(original) => Ok(Entry { timestamp: row[0].clone(), original }),
        Err(e) => Err(e),
    }
}

/// Reads the rows `rows[from..]`, in order, up to the first that cannot be
/// read.
fn entries_from(rows: &Vec<Vec<String>>, from: usize) -> (r: Result<Vec<Entry>, MirrorError>)
    requires
        from <= rows.len(),
    ensures
        yields(r, row_entries(rows.deep_view().skip(from as int))),
{
    let ghost all = rows.deep_view().skip(from as int);
    let mut entries: Vec<Entry> = Vec::new();
    let mut i: usize = from;
    assert(all.take(0) =~= Seq::<Seq<Seq<char>>>::empty());
    assert(entry_views(entries@) =~= Seq::<EntryView>::empty());
    while i < rows.len()
        invariant
            from <= i <= rows.len(),
            all == rows.deep_view().skip(from as int),
            row_entries(all.take(i - from)) == Ok::<Seq<EntryView>, MirrorError>(entry_views(entries@)),
        decreases rows.len() - i,
    {
        let ghost k = i - from;
        proof {
            assert(all.take(k + 1).drop_last() =~= all.take(k));
            assert(all.take(k + 1).last() == rows.deep_view()[i as int]);
            assert(rows.deep_view()[i as int] == rows@[i as int].deep_view());
        }
        match entry_from_row(&rows[i]) {
            Ok(entry) => {
                let ghost before = entries@;
                entries.push(entry);
                assert(entry_views(entries@) =~= entry_views(before).push(entry@));
            },
            Err(e) => {
                proof {
                    lemma_first_failure(all, k + 1);
                    assert(all.take(all.len() as int) =~= all);
                }
                return Err(e);
            },
        }
        i += 1;
    }
    assert(all.take(i - from) =~= all);
    Ok(entries)
}

/// Once the rows up to `k` cannot all be read, no longer stretch can: the
/// failure reported is that of the first row at fault.
proof fn lemma_first_failure(rows: Seq<Seq<Seq<char>>>, k: int)
    requires
        0 <= k <= rows.len(),
        row_entries(rows.take(k)) is Err,
    ensures
        forall|m: int| k <= m <= rows.len() ==> row_entries(#[trigger] rows.take(m)) == row_entries(
            rows.take(k),
        ),
{
    assert forall|m: int| k <= m <= rows.len() implies row_entries(#[trigger] rows.take(m))
        == row_entries(rows.take(k)) by {
        lemma_failure_persists(rows, k, m);
    }
}

proof fn lemma_failure_persists(rows: Seq<Seq<Seq<char>>>, k: int, m: int)
    requires
        0 <= k <= m <= rows.len(),
        row_entries(rows.take(k)) is Err,
    ensures
        row_entries(rows.take(m)) == row_entries(rows.take(k)),
    decreases m - k,
{
    if m > k {
        lemma_failure_persists(rows, k, m - 1);
        assert(rows.take(m).drop_last() =~= rows.take(m - 1));
    }
}

/// Keeps the records of the host that `query` names, in order. Scheme and
/// port play no part: a record is kept exactly when its host is the query's,
/// or when neither URL has a host.
pub fn select_host(query: &WebUrl, entries: Vec<Entry>) -> (kept: Vec<Entry>)
    ensures
        entry_views(kept@) == entry_views(entries@).filter(of_host(query@)),
{
    let ghost all = entry_views(entries@);
    let ghost pred = of_host(query@);
    let mut kept: Vec<Entry> = Vec::new();
    proof {
        reveal(Seq::filter);
        assert(all.take(0) =~= Seq::<EntryView>::empty());
        assert(entry_views(kept@) =~= all.take(0).filter(pred));
    }
    for entry in it: entries
        invariant
            it.seq() == entries@,
            all == entry_views(entries@),
            pred == of_host(query@),
            entry_views(kept@) == all.take(it.index()).filter(pred),
    {
        let ghost k = it.index();
        let ghost before = kept@;
        proof {
            assert(all.take(k + 1) =~= all.take(k).push(entry@));
            all.take(k).lemma_filter_push(entry@, pred);
        }
        if query.same_host(&entry.original) {
            kept.push(entry);
            assert(entry_views(kept@) =~= entry_views(before).push(entry@));
        }
    }
    assert(all.take(all.len() as int) =~= all);
    kept
}

/// The records that decoded rows yield for `query`.
pub fn entries_from_rows(query: &WebUrl, rows: &Vec<Vec<String>>) -> (r: Result<Vec<Entry>, MirrorError>)
    ensures
        yields(r, rows_outcome(query@, rows.deep_view())),
{
    let from: usize = if rows.len() == 0 {
        0
    } else {
        1
    };
    assert(data_rows(rows.deep_view()) =~= rows.deep_view().skip(from as int));
    match entries_from(rows, from) {
        Ok(entries) => Ok(select_host(query, entries)),
        Err(e) => Err(e),
    }
}

/// Reads one answer of the index: the records of `body` that are of the
/// query's host. An empty answer holds no records and is no failure.
pub fn parse_page(query: &WebUrl, body: &str) -> (r: Result<Vec<Entry>, MirrorError>)
    ensures
        yields(r, page_outcome(query@, body@)),
{
    if body.unicode_len() == 0 {
        let none: Vec<Entry> = Vec::new();
        assert(entry_views(none@) =~= Seq::<EntryView>::empty());
        return Ok(none);
    }
    match decode_rows(body) {
        Ok(rows) => entries_from_rows(query, &rows),
        Err(_) => Err(MirrorError::MalformedJson),
    }
}

/// Every record that one answer yields is of the host that the query names.
pub proof fn lemma_foreign_hosts_are_dropped(query: WebUrlView, body: Seq<char>, i: int)
    requires
        page_outcome(query, body) is Ok,
        0 <= i < page_outcome(query, body).unwrap().len(),
    ensures
        page_outcome(query, body).unwrap()[i].original.host == query.host,
{
    if body.len() > 0 {
        let rows = json_rows(body).unwrap();
        let entries = row_entries(data_rows(rows)).unwrap();
        entries.lemma_filter_pred(of_host(query), i);
    }
}

/// The discovery stage: which page to ask for next, what each answer holds,
/// and the index that the answers add up to.
pub struct SnapshotQuery {
    text: String,
    schedule: Scheduler,
    index: ResourceIndex,
}

impl SnapshotQuery {
    /// The parsed URL prefix that is asked for.
    pub closed spec fn query(&self) -> WebUrlView {
        self.index.query()
    }

    /// The URL prefix as it was given.
    pub closed spec fn text(&self) -> Seq<char> {
        self.text@
    }

    /// How far the stage has come.
    pub closed spec fn progress(&self) -> Progress {
        self.schedule@
    }

    /// The records kept so far.
    pub closed spec fn index(&self) -> Seq<EntryView> {
        self.index@
    }

    /// The invariant of the stage: that of its index.
    pub closed spec fn wf(&self) -> bool {
        self.index.wf()
    }

    /// Says what to do next: ask for the page `Start` names, wait for an
    /// answer, or stop.
    pub fn poll(&mut self) -> (d: Directive)
        requires
            old(self).wf(),
        ensures
            final(self).wf(),
            d == old(self).progress().directive(),
            final(self).progress() == old(self).progress().polled(),
            final(self).progress().wf(),
            final(self).query() == old(self).query(),
            final(self).text() == old(self).text(),
            final(self).index() == old(self).index(),
    {
        self.schedule.poll()
    }

    /// The parameters of the request for page `page`.
    pub fn params(&self, page: usize) -> (params: Vec<(String, String)>)
        ensures
            pair_views(params@) == page_query(self.text(), page as nat),
    {
        query_params(self.text.as_str(), page)
    }

    /// Takes in the answer to one request: reads its records, merges them
    /// into the index and returns how many they were. A page that cannot be
    /// read, or that holds a record that the index refuses, counts as
    /// failed, and no further page is asked for.
    pub fn receive(&mut self, body: &str) -> (r: Result<usize, MirrorError>)
        requires
            old(self).wf(),
        ensures
            final(self).wf(),
            final(self).query() == old(self).query(),
            final(self).text() == old(self).text(),
            final(self).progress() == old(self).progress().completed(r is Ok),
            final(self).progress().wf(),
            match page_outcome(old(self).query(), body@) {
                Err(e) => r == Err::<usize, MirrorError>(e) && final(self).index() == old(
                    self,
                ).index(),
                Ok(entries) => {
                    &&& final(self).index() == merged(
                        old(self).query(),
                        old(self).index(),
                        entries,
                    )
                    &&& r is Ok <==> all_fit(old(self).query(), entries)
                    &&& r matches Ok(n) ==> n == entries.len()
                    &&& r matches Err(e) ==> e == MirrorError::OutsidePrefix
                },
            },
    {
        let r = match parse_page(self.index.url(), body) {
            Ok(entries) => {
                let n = entries.len();
                match self.index.merge_page(entries) {
                    Ok(()) => Ok(n),
                    Err(e) => Err(e),
                }
            },
            Err(e) => Err(e),
        };
        self.schedule.complete(r.is_ok());
        r
    }

    /// Records that a request failed. No further page is asked for.
    pub fn fail(&mut self)
        requires
            old(self).wf(),
        ensures
            final(self).wf(),
            final(self).progress() == old(self).progress().completed(false),
            final(self).progress().wf(),
            final(self).query() == old(self).query(),
            final(self).text() == old(self).text(),
            final(self).index() == old(self).index(),
    {
        self.schedule.complete(false);
    }

    /// Hands out the index once every page has been taken in. While pages
    /// are outstanding, and after a failure, there is no index to build a
    /// plan from.
    pub fn into_index(self) -> (r: Option<ResourceIndex>)
        requires
            self.wf(),
        ensures
            match r {
                Some(index) => self.progress().directive() == Directive::Finished(true)
                    && index.wf() && index@ == self.index() && index.query() == self.query(),
                None => self.progress().directive() != Directive::Finished(true),
            },
    {
        let mut this = self;
        match this.schedule.poll() {
            Directive::Finished(true) => Some(this.index),
            _ => None,
        }
    }
}

/// Starts discovery of the captures under `url`: `pages` pages, numbered
/// from zero, of which at most `concurrency` are asked for at once. Fails
/// where `url` is not an absolute URL.
pub fn query_snapshots(url: &str, pages: usize, concurrency: usize) -> (r: Result<
    SnapshotQuery,
    MirrorError,
>)
    ensures
        match r {
            Ok(q) => {
                &&& q.wf()
                &&& parsed_url(url@) == Some(q.query())
                &&& q.text() == url@
                &&& q.index() == Seq::<EntryView>::empty()
                &&& q.progress() == Progress::fresh(pages as nat, concurrency as nat)
                &&& q.progress().wf()
            },
            Err(e) => e == MirrorError::InvalidUrl && parsed_url(url@) is None,
        },
{
    match WebUrl::parse(url) {
        Ok(query) => Ok(
            SnapshotQuery {
                text: url.to_owned(),
                schedule: Scheduler::new(pages, concurrency),
                index: ResourceIndex::new(query),
            },
        ),
        Err(e) => Err(e),
    }
}

} // verus!
