//! The order of jobs within a plan.
//!
//! Jobs are ordered by the URL they fetch from; jobs that fetch from the same
//! URL are ordered by their local path. The order is total on job values, so
//! a set of jobs has exactly one sorted arrangement.

use crate::downloader::{DownloadJob, JobView};
use crate::text::{
    lemma_lex_irreflexive, lemma_lex_le_transitive, lemma_lex_transitive, lemma_lex_trichotomy,
    lex_le, lex_lt, str_lt,
};
use vstd::prelude::*;
use vstd::relations::{sorted_by, total_ordering};
use vstd::seq_lib::lemma_sorted_unique;

verus! {

/// `a` stands before `b` in a plan, or is the same job.
pub open spec fn job_le(a: JobView, b: JobView) -> bool {
    lex_lt(a.url, b.url) || (a.url == b.url && lex_le(a.rel_path, b.rel_path))
}

/// [`job_le`] as a relation.
pub open spec fn job_order() -> spec_fn(JobView, JobView) -> bool {
    |a: JobView, b: JobView| job_le(a, b)
}

/// The views of a sequence of jobs.
pub open spec fn views(jobs: Seq<DownloadJob>) -> Seq<JobView> {
    jobs.map_values(|j: DownloadJob| j@)
}

/// Whether `s` is in plan order.
pub open spec fn in_order(s: Seq<JobView>) -> bool {
    forall|i: int, j: int| 0 <= i < j < s.len() ==> job_le(#[trigger] s[i], #[trigger] s[j])
}

/// Every job stands before itself.
pub proof fn lemma_job_le_reflexive(a: JobView)
    ensures
        job_le(a, a),
{
    lemma_lex_irreflexive(a.rel_path);
}

/// Of two jobs, one stands before the other.
pub proof fn lemma_job_le_connected(a: JobView, b: JobView)
    ensures
        job_le(a, b) || job_le(b, a),
{
    lemma_lex_trichotomy(a.url, b.url);
    lemma_lex_trichotomy(a.rel_path, b.rel_path);
}

/// Two jobs that each stand before the other are one job.
pub proof fn lemma_job_le_antisymmetric(a: JobView, b: JobView)
    requires
        job_le(a, b),
        job_le(b, a),
    ensures
        a == b,
{
    lemma_lex_trichotomy(a.url, b.url);
    lemma_lex_trichotomy(a.rel_path, b.rel_path);
}

/// The order is transitive.
pub proof fn lemma_job_le_transitive(a: JobView, b: JobView, c: JobView)
    requires
        job_le(a, b),
        job_le(b, c),
    ensures
        job_le(a, c),
{
    lemma_lex_trichotomy(a.url, b.url);
    lemma_lex_trichotomy(b.url, c.url);
    lemma_lex_trichotomy(a.url, c.url);
    if lex_lt(a.url, b.url) && lex_lt(b.url, c.url) {
        lemma_lex_transitive(a.url, b.url, c.url);
    }
    if a.url == b.url && b.url == c.url {
        lemma_lex_le_transitive(a.rel_path, b.rel_path, c.rel_path);
    }
}

/// The order of jobs is a total order.
pub proof fn lemma_job_order_total()
    ensures
        total_ordering(job_order()),
{
    let r = job_order();
    assert forall|x: JobView| #[trigger] r(x, x) by {
        lemma_job_le_reflexive(x);
    }
    assert forall|x: JobView, y: JobView| #[trigger] r(x, y) && #[trigger] r(y, x) implies x
        == y by {
        lemma_job_le_antisymmetric(x, y);
    }
    assert forall|x: JobView, y: JobView, z: JobView| #[trigger]
        r(x, y) && #[trigger] r(y, z) implies r(x, z) by {
        lemma_job_le_transitive(x, y, z);
    }
    assert forall|x: JobView, y: JobView| #[trigger] r(x, y) || #[trigger] r(y, x) by {
        lemma_job_le_connected(x, y);
    }
}

/// Sorted arrangements are unique: two sequences in plan order that hold the
/// same jobs, each as often as the other, are equal.
pub proof fn lemma_order_unique(x: Seq<JobView>, y: Seq<JobView>)
    requires
        in_order(x),
        in_order(y),
        x.to_multiset() == y.to_multiset(),
    ensures
        x == y,
{
    lemma_job_order_total();
    assert(sorted_by(x, job_order()));
    assert(sorted_by(y, job_order()));
    lemma_sorted_unique(x, y, job_order());
}

/// Decides whether `a` stands before `b` in a plan, or is the same job.
pub fn job_before(a: &DownloadJob, b: &DownloadJob) -> (r: bool)
    ensures
        r == job_le(a@, b@),
{
    if str_lt(a.url.as_str(), b.url.as_str()) {
        true
    } else if a.url == b.url {
        !str_lt(b.rel_path.as_str(), a.rel_path.as_str())
    } else {
        false
    }
}

/// Whether `s` runs from the last job of the order to the first.
spec fn descending(s: Seq<JobView>) -> bool {
    forall|i: int, j: int| 0 <= i < j < s.len() ==> job_le(#[trigger] s[j], #[trigger] s[i])
}

/// Whether every job of `low` stands before every job of `high`.
spec fn below(low: Seq<JobView>, high: Seq<JobView>) -> bool {
    forall|i: int, k: int|
        0 <= i < low.len() && 0 <= k < high.len() ==> job_le(#[trigger] low[i], #[trigger] high[k])
}

proof fn lemma_views_push(s: Seq<DownloadJob>, x: DownloadJob)
    ensures
        views(s.push(x)) == views(s).push(x@),
        views(s.push(x)).to_multiset() == views(s).to_multiset().insert(x@),
{
    assert(views(s.push(x)) =~= views(s).push(x@));
    vstd::seq_lib::to_multiset_build(views(s), x@);
}

proof fn lemma_views_drop_last(s: Seq<DownloadJob>)
    requires
        s.len() > 0,
    ensures
        views(s) == views(s.drop_last()).push(s.last()@),
        views(s).to_multiset() == views(s.drop_last()).to_multiset().insert(s.last()@),
{
    assert(s =~= s.drop_last().push(s.last()));
    lemma_views_push(s.drop_last(), s.last());
}

proof fn lemma_views_empty(s: Seq<DownloadJob>)
    requires
        s.len() == 0,
    ensures
        views(s).to_multiset() == vstd::multiset::Multiset::<JobView>::empty(),
{
    views(s).to_multiset_ensures();
    assert(views(s).to_multiset() =~= vstd::multiset::Multiset::<JobView>::empty());
}

/// Moving the greatest job of the sorted `a` (or of the sorted `b`) to the
/// end of the descending `r` keeps every relation between the three.
proof fn lemma_take_greatest(a: Seq<JobView>, b: Seq<JobView>, r: Seq<JobView>, x: JobView)
    requires
        in_order(a.push(x)),
        in_order(b),
        descending(r),
        below(a.push(x), r),
        below(b, r),
        b.len() > 0 ==> job_le(b.last(), x),
    ensures
        in_order(a),
        descending(r.push(x)),
        below(a, r.push(x)),
        below(b, r.push(x)),
{
    let ax = a.push(x);
    let rx = r.push(x);
    assert forall|i: int, j: int| 0 <= i < j < a.len() implies job_le(
        #[trigger] a[i],
        #[trigger] a[j],
    ) by {
        assert(job_le(ax[i], ax[j]));
    }
    assert forall|i: int| 0 <= i < a.len() implies job_le(#[trigger] a[i], x) by {
        assert(job_le(ax[i], ax[a.len() as int]));
    }
    assert forall|i: int| 0 <= i < b.len() implies job_le(#[trigger] b[i], x) by {
        if i < b.len() - 1 {
            assert(job_le(b[i], b[b.len() - 1]));
            lemma_job_le_transitive(b[i], b.last(), x);
        }
    }
    assert forall|k: int| 0 <= k < r.len() implies job_le(x, #[trigger] r[k]) by {
        assert(job_le(ax[a.len() as int], r[k]));
    }
    assert forall|i: int, j: int| 0 <= i < j < rx.len() implies job_le(
        #[trigger] rx[j],
        #[trigger] rx[i],
    ) by {
        if j < r.len() {
            assert(job_le(r[j], r[i]));
        } else {
            assert(job_le(x, r[i]));
        }
    }
    assert forall|i: int, k: int| 0 <= i < a.len() && 0 <= k < rx.len() implies job_le(
        #[trigger] a[i],
        #[trigger] rx[k],
    ) by {
        if k < r.len() {
            assert(job_le(ax[i], r[k]));
        } else {
            assert(job_le(a[i], x));
        }
    }
    assert forall|i: int, k: int| 0 <= i < b.len() && 0 <= k < rx.len() implies job_le(
        #[trigger] b[i],
        #[trigger] rx[k],
    ) by {
        if k < r.len() {
            assert(job_le(b[i], r[k]));
        } else {
            assert(job_le(b[i], x));
        }
    }
}

/// Moving the least job of the descending `r` to the end of the sorted `o`
/// keeps every relation between the two.
proof fn lemma_take_least(o: Seq<JobView>, r: Seq<JobView>, x: JobView)
    requires
        in_order(o),
        descending(r.push(x)),
        below(o, r.push(x)),
    ensures
        in_order(o.push(x)),
        descending(r),
        below(o.push(x), r),
{
    let rx = r.push(x);
    let ox = o.push(x);
    assert forall|i: int, j: int| 0 <= i < j < r.len() implies job_le(
        #[trigger] r[j],
        #[trigger] r[i],
    ) by {
        assert(job_le(rx[j], rx[i]));
    }
    assert forall|i: int, j: int| 0 <= i < j < ox.len() implies job_le(
        #[trigger] ox[i],
        #[trigger] ox[j],
    ) by {
        if j < o.len() {
            assert(job_le(o[i], o[j]));
        } else {
            assert(job_le(o[i], rx[r.len() as int]));
        }
    }
    assert forall|i: int, k: int| 0 <= i < ox.len() && 0 <= k < r.len() implies job_le(
        #[trigger] ox[i],
        #[trigger] r[k],
    ) by {
        if i < o.len() {
            assert(job_le(o[i], rx[k]));
        } else {
            assert(job_le(rx[r.len() as int], rx[k]));
        }
    }
}

/// Merges two sorted lists into one.
fn merge_sorted(a: Vec<DownloadJob>, b: Vec<DownloadJob>) -> (r: Vec<DownloadJob>)
    requires
        in_order(views(a@)),
        in_order(views(b@)),
    ensures
        in_order(views(r@)),
        views(r@).to_multiset() == views(a@).to_multiset().add(views(b@).to_multiset()),
{
    let ghost total = views(a@).to_multiset().add(views(b@).to_multiset());
    let mut a = a;
    let mut b = b;
    let mut rev: Vec<DownloadJob> = Vec::new();
    proof {
        lemma_views_empty(rev@);
    }
    while a.len() > 0 || b.len() > 0
        invariant
            in_order(views(a@)),
            in_order(views(b@)),
            descending(views(rev@)),
            below(views(a@), views(rev@)),
            below(views(b@), views(rev@)),
            views(a@).to_multiset().add(views(b@).to_multiset()).add(views(rev@).to_multiset())
                =~= total,
        decreases a.len() + b.len(),
    {
        let ghost a0 = a@;
        let ghost b0 = b@;
        let ghost r0 = rev@;
        let from_a = if b.len() == 0 {
            true
        } else if a.len() == 0 {
            false
        } else {
            job_before(&b[b.len() - 1], &a[a.len() - 1])
        };
        if from_a {
            let x = a.pop().unwrap();
            proof {
                assert(a@ =~= a0.drop_last());
                lemma_views_drop_last(a0);
                lemma_views_push(r0, x);
                assert(b0.len() > 0 ==> views(b0).last() == b0.last()@);
                lemma_take_greatest(views(a@), views(b0), views(r0), x@);
            }
            rev.push(x);
        } else {
            let x = b.pop().unwrap();
            proof {
                assert(b@ =~= b0.drop_last());
                lemma_views_drop_last(b0);
                lemma_views_push(r0, x);
                if a0.len() > 0 {
                    assert(views(a0).last() == a0.last()@);
                    lemma_job_le_connected(x@, a0.last()@);
                }
                lemma_take_greatest(views(b@), views(a0), views(r0), x@);
            }
            rev.push(x);
        }
    }
    let mut out: Vec<DownloadJob> = Vec::new();
    proof {
        lemma_views_empty(a@);
        lemma_views_empty(b@);
        lemma_views_empty(out@);
    }
    while rev.len() > 0
        invariant
            in_order(views(out@)),
            descending(views(rev@)),
            below(views(out@), views(rev@)),
            views(out@).to_multiset().add(views(rev@).to_multiset()) =~= total,
        decreases rev.len(),
    {
        let ghost r0 = rev@;
        let ghost o0 = out@;
        let x = rev.pop().unwrap();
        proof {
            assert(rev@ =~= r0.drop_last());
            lemma_views_drop_last(r0);
            lemma_views_push(o0, x);
            lemma_take_least(views(o0), views(rev@), x@);
        }
        out.push(x);
    }
    proof {
        lemma_views_empty(rev@);
    }
    out
}

/// Sorts jobs into plan order.
pub fn sort_jobs(jobs: Vec<DownloadJob>) -> (r: Vec<DownloadJob>)
    ensures
        in_order(views(r@)),
        views(r@).to_multiset() == views(jobs@).to_multiset(),
    decreases jobs.len(),
{
    if jobs.len() <= 1 {
        return jobs;
    }
    let ghost whole = jobs@;
    let mut left = jobs;
    let right = left.split_off(left.len() / 2);
    proof {
        assert(whole =~= left@ + right@);
        assert(views(whole) =~= views(left@) + views(right@));
        vstd::seq_lib::lemma_multiset_commutative(views(left@), views(right@));
    }
    let left = sort_jobs(left);
    let right = sort_jobs(right);
    merge_sorted(left, right)
}

} // verus!
