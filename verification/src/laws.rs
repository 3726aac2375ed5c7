//! What holds of discovery as a whole.
//!
//! Pages arrive in no fixed order, and a run may be repeated. The lemmas here
//! show that neither matters: the index ends up with the newest capture of
//! every resource, and the plan derived from it is the same whatever the
//! order of arrival.

use crate::api::{of_host, EntryView};
use crate::downloader::JobView;
use crate::index::{absorb, all_fit, distinct, fits, holds, job_of, jobs_of, merged};
use crate::order::{in_order, lemma_order_unique};
use crate::text::{lemma_lex_irreflexive, lemma_lex_le_transitive, lemma_lex_trichotomy, lex_le};
use crate::weburl::WebUrlView;
use vstd::prelude::*;

verus! {

/// Whether `r` is one of `es` and no record of `es` for the same URL is
/// newer.
pub open spec fn is_newest_of(r: EntryView, es: Seq<EntryView>) -> bool {
    &&& exists|j: int| 0 <= j < es.len() && #[trigger] es[j] == r
    &&& forall|j: int|
        0 <= j < es.len() && (#[trigger] es[j]).original.href == r.original.href ==> lex_le(
            es[j].timestamp,
            r.timestamp,
        )
}

/// Whether `index` holds, for every URL text of `es` and for no other, one
/// record of `es` with the greatest timestamp among the records of that
/// URL.
pub open spec fn summarises(index: Seq<EntryView>, es: Seq<EntryView>) -> bool {
    &&& distinct(index)
    &&& forall|i: int| 0 <= i < index.len() ==> is_newest_of(#[trigger] index[i], es)
    &&& forall|j: int| 0 <= j < es.len() ==> holds(index, (#[trigger] es[j]).original.href)
}

/// Whether records of the same URL text agree on the whole URL. Host and
/// path are read off a URL's text, so records that were parsed agree; values
/// put together by hand need not.
pub open spec fn coherent(es: Seq<EntryView>) -> bool {
    forall|i: int, j: int|
        0 <= i < es.len() && 0 <= j < es.len() && (#[trigger] es[i]).original.href == (
        #[trigger] es[j]).original.href ==> es[i].original == es[j].original
}

/// Whether `plan` is the plan that [`crate::index::ResourceIndex::plan`]
/// promises for the index `index`.
pub open spec fn is_plan_of(
    plan: Seq<JobView>,
    query: WebUrlView,
    dirs: Seq<Seq<char>>,
    index: Seq<EntryView>,
) -> bool {
    in_order(plan) && plan.to_multiset() == jobs_of(query, dirs, index).to_multiset()
}

/// Taking in one more record keeps the index a summary of what has arrived.
pub proof fn lemma_absorb_summarises(index: Seq<EntryView>, seen: Seq<EntryView>, e: EntryView)
    requires
        summarises(index, seen),
    ensures
        summarises(absorb(index, e), seen.push(e)),
{
    let a = absorb(index, e);
    let all = seen.push(e);
    assert(all[seen.len() as int] == e);
    if holds(index, e.original.href) {
        let i0 = choose|i: int| 0 <= i < index.len() && (#[trigger] index[i]).original.href == e.original.href;
        assert(a.len() == index.len());
        assert forall|k: int| 0 <= k < a.len() implies (#[trigger] a[k]).original.href
            == index[k].original.href by {}
        assert forall|i: int, j: int| 0 <= i < j < a.len() implies (#[trigger] a[i]).original.href != (
        #[trigger] a[j]).original.href by {
            assert(index[i].original.href != index[j].original.href);
        }
        assert forall|k: int| 0 <= k < a.len() implies is_newest_of(#[trigger] a[k], all) by {
            let old = index[k];
            assert(is_newest_of(old, seen));
            if a[k] == old {
                let w = choose|j: int| 0 <= j < seen.len() && #[trigger] seen[j] == old;
                assert(all[w] == old);
                assert forall|j: int|
                    0 <= j < all.len() && (#[trigger] all[j]).original.href
                        == old.original.href implies lex_le(all[j].timestamp, old.timestamp) by {
                    if j < seen.len() {
                        assert(seen[j] == all[j]);
                    } else {
                        lemma_lex_irreflexive(old.timestamp);
                    }
                }
            } else {
                assert(a[k] == e);
                assert forall|j: int|
                    0 <= j < all.len() && (#[trigger] all[j]).original.href
                        == e.original.href implies lex_le(all[j].timestamp, e.timestamp) by {
                    if j < seen.len() {
                        assert(seen[j] == all[j]);
                        assert(lex_le(seen[j].timestamp, old.timestamp));
                        lemma_lex_trichotomy(old.timestamp, e.timestamp);
                        lemma_lex_le_transitive(seen[j].timestamp, old.timestamp, e.timestamp);
                    } else {
                        lemma_lex_irreflexive(e.timestamp);
                    }
                }
            }
        }
        assert forall|j: int| 0 <= j < all.len() implies holds(a, (#[trigger] all[j]).original.href) by {
            if j < seen.len() {
                assert(seen[j] == all[j]);
                assert(holds(index, seen[j].original.href));
                let i = choose|i: int|
                    0 <= i < index.len() && (#[trigger] index[i]).original.href == seen[j].original.href;
                assert(a[i].original.href == all[j].original.href);
            } else {
                assert(a[i0].original.href == e.original.href);
            }
        }
    } else {
        assert(a == index.push(e));
        assert forall|i: int, j: int| 0 <= i < j < a.len() implies (#[trigger] a[i]).original.href != (
        #[trigger] a[j]).original.href by {
            if j < index.len() {
                assert(index[i].original.href != index[j].original.href);
            } else {
                assert(a[i] == index[i]);
            }
        }
        assert forall|k: int| 0 <= k < a.len() implies is_newest_of(#[trigger] a[k], all) by {
            if k < index.len() {
                let old = index[k];
                assert(a[k] == old);
                assert(is_newest_of(old, seen));
                let w = choose|j: int| 0 <= j < seen.len() && #[trigger] seen[j] == old;
                assert(all[w] == old);
                assert forall|j: int|
                    0 <= j < all.len() && (#[trigger] all[j]).original.href
                        == old.original.href implies lex_le(all[j].timestamp, old.timestamp) by {
                    if j < seen.len() {
                        assert(seen[j] == all[j]);
                    }
                }
            } else {
                assert(a[k] == e);
                assert forall|j: int|
                    0 <= j < all.len() && (#[trigger] all[j]).original.href
                        == e.original.href implies lex_le(all[j].timestamp, e.timestamp) by {
                    if j < seen.len() {
                        assert(seen[j] == all[j]);
                        assert(holds(index, seen[j].original.href));
                    } else {
                        lemma_lex_irreflexive(e.timestamp);
                    }
                }
            }
        }
        assert forall|j: int| 0 <= j < all.len() implies holds(a, (#[trigger] all[j]).original.href) by {
            if j < seen.len() {
                assert(seen[j] == all[j]);
                assert(holds(index, seen[j].original.href));
                let i = choose|i: int|
                    0 <= i < index.len() && (#[trigger] index[i]).original.href == seen[j].original.href;
                assert(a[i] == index[i]);
            } else {
                assert(a[index.len() as int].original.href == e.original.href);
            }
        }
    }
}

/// Taking in a run of records that all fit the query keeps the index a
/// summary of what has arrived.
pub proof fn lemma_merged_summarises(
    query: WebUrlView,
    index: Seq<EntryView>,
    seen: Seq<EntryView>,
    es: Seq<EntryView>,
)
    requires
        summarises(index, seen),
        all_fit(query, es),
    ensures
        summarises(merged(query, index, es), seen + es),
    decreases es.len(),
{
    if es.len() == 0 {
        assert(seen + es =~= seen);
    } else {
        assert(fits(query, es[0]));
        lemma_absorb_summarises(index, seen, es[0]);
        let rest = es.drop_first();
        assert forall|i: int| 0 <= i < rest.len() implies fits(query, #[trigger] rest[i]) by {
            assert(rest[i] == es[i + 1]);
        }
        lemma_merged_summarises(query, absorb(index, es[0]), seen.push(es[0]), rest);
        assert(seen.push(es[0]) + rest =~= seen + es);
    }
}

/// Merge correctness. Whatever the order in which the records `es` arrive,
/// the index built from them holds every URL of `es` once, with a record of
/// `es` whose timestamp is the greatest among the records of that URL.
pub proof fn lemma_newest_capture_survives(query: WebUrlView, es: Seq<EntryView>)
    requires
        all_fit(query, es),
    ensures
        summarises(merged(query, Seq::empty(), es), es),
{
    let none = Seq::<EntryView>::empty();
    assert(summarises(none, none));
    lemma_merged_summarises(query, none, none, es);
    assert(none + es =~= es);
}

/// Merging page after page is merging all their records in one run.
pub proof fn lemma_merged_in_pages(
    query: WebUrlView,
    index: Seq<EntryView>,
    first: Seq<EntryView>,
    second: Seq<EntryView>,
)
    requires
        all_fit(query, first),
    ensures
        merged(query, merged(query, index, first), second) == merged(query, index, first + second),
    decreases first.len(),
{
    if first.len() == 0 {
        assert(first + second =~= second);
    } else {
        let rest = first.drop_first();
        assert(fits(query, first[0]));
        assert forall|i: int| 0 <= i < rest.len() implies fits(query, #[trigger] rest[i]) by {
            assert(rest[i] == first[i + 1]);
        }
        lemma_merged_in_pages(query, absorb(index, first[0]), rest, second);
        assert((first + second).drop_first() =~= rest + second);
        assert((first + second)[0] == first[0]);
    }
}

/// Sequences that hold the same records are coherent together.
proof fn lemma_coherent_transfers(a: Seq<EntryView>, b: Seq<EntryView>)
    requires
        coherent(a),
        a.to_multiset() == b.to_multiset(),
    ensures
        coherent(b),
{
    broadcast use vstd::seq_lib::to_multiset_contains;

    assert forall|i: int, j: int|
        0 <= i < b.len() && 0 <= j < b.len() && (#[trigger] b[i]).original.href == (
        #[trigger] b[j]).original.href implies b[i].original == b[j].original by {
        assert(b.contains(b[i]));
        assert(b.contains(b[j]));
        assert(a.to_multiset().count(b[i]) > 0);
        assert(a.to_multiset().count(b[j]) > 0);
        assert(a.contains(b[i]));
        assert(a.contains(b[j]));
        let p = choose|p: int| 0 <= p < a.len() && a[p] == b[i];
        let q = choose|q: int| 0 <= q < a.len() && a[q] == b[j];
        assert(a[p].original == a[q].original);
    }
}

/// Two summaries of the same coherent records hold the same records.
pub proof fn lemma_summaries_agree(
    x: Seq<EntryView>,
    y: Seq<EntryView>,
    a: Seq<EntryView>,
    b: Seq<EntryView>,
)
    requires
        summarises(x, a),
        summarises(y, b),
        coherent(a),
        a.to_multiset() == b.to_multiset(),
    ensures
        x.to_multiset() == y.to_multiset(),
{
    broadcast use vstd::seq_lib::to_multiset_contains;

    lemma_coherent_transfers(a, b);
    lemma_summary_within(x, y, a, b);
    lemma_summary_within(y, x, b, a);
    lemma_distinct_has_no_duplicates(x);
    lemma_distinct_has_no_duplicates(y);
    x.lemma_multiset_has_no_duplicates();
    y.lemma_multiset_has_no_duplicates();
    assert forall|v: EntryView| x.to_multiset().count(v) == y.to_multiset().count(v) by {
        if x.contains(v) {
            assert(y.contains(v));
            assert(x.to_multiset().contains(v));
            assert(y.to_multiset().contains(v));
        } else {
            assert(!y.contains(v));
        }
    }
    assert(x.to_multiset() =~= y.to_multiset());
}

proof fn lemma_distinct_has_no_duplicates(s: Seq<EntryView>)
    requires
        distinct(s),
    ensures
        s.no_duplicates(),
{
    assert forall|i: int, j: int| 0 <= i < s.len() && 0 <= j < s.len() && i != j implies s[i]
        != s[j] by {
        if i < j {
            assert(s[i].original.href != s[j].original.href);
        } else {
            assert(s[j].original.href != s[i].original.href);
        }
    }
}

proof fn lemma_summary_within(
    x: Seq<EntryView>,
    y: Seq<EntryView>,
    a: Seq<EntryView>,
    b: Seq<EntryView>,
)
    requires
        summarises(x, a),
        summarises(y, b),
        coherent(a),
        a.to_multiset() == b.to_multiset(),
    ensures
        forall|v: EntryView| x.contains(v) ==> y.contains(v),
{
    broadcast use vstd::seq_lib::to_multiset_contains;

    assert forall|v: EntryView| x.contains(v) implies y.contains(v) by {
        let i = choose|i: int| 0 <= i < x.len() && x[i] == v;
        assert(is_newest_of(x[i], a));
        let ja = choose|j: int| 0 <= j < a.len() && #[trigger] a[j] == v;
        assert(a.contains(v));
        assert(b.to_multiset().count(v) > 0);
        assert(b.contains(v));
        let jb = choose|j: int| 0 <= j < b.len() && b[j] == v;
        assert(holds(y, b[jb].original.href));
        let k = choose|k: int| 0 <= k < y.len() && (#[trigger] y[k]).original.href == v.original.href;
        let w = y[k];
        assert(is_newest_of(w, b));
        assert(lex_le(b[jb].timestamp, w.timestamp));
        let jw = choose|j: int| 0 <= j < b.len() && #[trigger] b[j] == w;
        assert(b.contains(w));
        assert(a.to_multiset().count(w) > 0);
        assert(a.contains(w));
        let jv = choose|j: int| 0 <= j < a.len() && a[j] == w;
        assert(lex_le(a[jv].timestamp, v.timestamp));
        lemma_lex_trichotomy(v.timestamp, w.timestamp);
        assert(a[jv].original == a[ja].original);
        assert(w == v);
    }
}

/// Sequences that hold the same values, each as often as the other, still do
/// so after every value has been mapped.
pub proof fn lemma_map_keeps_multiset<A, B>(a: Seq<A>, b: Seq<A>, f: spec_fn(A) -> B)
    requires
        a.to_multiset() == b.to_multiset(),
    ensures
        a.map_values(f).to_multiset() == b.map_values(f).to_multiset(),
    decreases a.len(),
{
    broadcast use {
        vstd::seq_lib::to_multiset_contains,
        vstd::seq_lib::to_multiset_len,
        vstd::multiset::group_multiset_axioms,
    };

    if a.len() == 0 {
        vstd::seq_lib::to_multiset_len(a);
        vstd::seq_lib::to_multiset_len(b);
        assert(b.len() == 0);
        assert(a.map_values(f) =~= b.map_values(f));
    } else {
        let x = a.last();
        let a1 = a.drop_last();
        assert(a =~= a1.push(x));
        vstd::seq_lib::to_multiset_build(a1, x);
        assert(a.contains(x));
        assert(b.to_multiset().count(x) > 0);
        assert(b.contains(x));
        let k = choose|k: int| 0 <= k < b.len() && b[k] == x;
        let b1 = b.remove(k);
        vstd::seq_lib::to_multiset_remove(b, k);
        assert(a1.to_multiset() =~= b1.to_multiset());
        lemma_map_keeps_multiset(a1, b1, f);
        let ma = a.map_values(f);
        let mb = b.map_values(f);
        assert(ma =~= a1.map_values(f).push(f(x)));
        vstd::seq_lib::to_multiset_build(a1.map_values(f), f(x));
        assert(mb.remove(k) =~= b1.map_values(f));
        vstd::seq_lib::to_multiset_remove(mb, k);
        assert(mb[k] == f(x));
        assert(mb.contains(f(x)));
        assert(mb.to_multiset() =~= mb.remove(k).to_multiset().insert(f(x)));
    }
}

/// Idempotence, and independence of arrival order. Two discoveries that saw
/// the same records, in whatever order, end with the same plan: the same
/// jobs in the same order. The records must be coherent: which of two
/// records with one URL text and one timestamp is kept depends on which came
/// first, and shows only where the two disagree on the path.
pub proof fn lemma_plan_ignores_arrival_order(
    query: WebUrlView,
    dirs: Seq<Seq<char>>,
    a: Seq<EntryView>,
    b: Seq<EntryView>,
    plan_a: Seq<JobView>,
    plan_b: Seq<JobView>,
)
    requires
        all_fit(query, a),
        coherent(a),
        a.to_multiset() == b.to_multiset(),
        is_plan_of(plan_a, query, dirs, merged(query, Seq::empty(), a)),
        is_plan_of(plan_b, query, dirs, merged(query, Seq::empty(), b)),
    ensures
        plan_a == plan_b,
{
    broadcast use vstd::seq_lib::to_multiset_contains;

    assert forall|i: int| 0 <= i < b.len() implies fits(query, #[trigger] b[i]) by {
        assert(b.contains(b[i]));
        assert(a.to_multiset().count(b[i]) > 0);
        assert(a.contains(b[i]));
        let j = choose|j: int| 0 <= j < a.len() && a[j] == b[i];
        assert(fits(query, a[j]));
    }
    let x = merged(query, Seq::empty(), a);
    let y = merged(query, Seq::empty(), b);
    lemma_newest_capture_survives(query, a);
    lemma_newest_capture_survives(query, b);
    lemma_summaries_agree(x, y, a, b);
    lemma_map_keeps_multiset(x, y, |e: EntryView| job_of(query, dirs, e));
    lemma_order_unique(plan_a, plan_b);
}

/// Host filter, end to end. Where every record that arrived is of the
/// query's host, every job of the plan fetches a capture of that host: it is
/// the job of one of the records that arrived.
pub proof fn lemma_plan_stays_on_host(
    query: WebUrlView,
    dirs: Seq<Seq<char>>,
    es: Seq<EntryView>,
    plan: Seq<JobView>,
    i: int,
)
    requires
        all_fit(query, es),
        forall|j: int| 0 <= j < es.len() ==> of_host(query)(#[trigger] es[j]),
        is_plan_of(plan, query, dirs, merged(query, Seq::empty(), es)),
        0 <= i < plan.len(),
    ensures
        exists|j: int|
            0 <= j < es.len() && (#[trigger] es[j]).original.host == query.host && plan[i]
                == job_of(query, dirs, es[j]),
{
    broadcast use vstd::seq_lib::to_multiset_contains;

    let index = merged(query, Seq::empty(), es);
    let jobs = jobs_of(query, dirs, index);
    lemma_newest_capture_survives(query, es);
    assert(plan.contains(plan[i]));
    assert(jobs.to_multiset().count(plan[i]) > 0);
    assert(jobs.contains(plan[i]));
    let k = choose|k: int| 0 <= k < jobs.len() && jobs[k] == plan[i];
    assert(is_newest_of(index[k], es));
    let j = choose|j: int| 0 <= j < es.len() && #[trigger] es[j] == index[k];
    assert(of_host(query)(es[j]));
}

} // verus!
