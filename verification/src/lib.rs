pub mod classify;
pub mod totals;
pub mod rank;
pub mod aggregate;
pub mod report;

use vstd::prelude::*;
use vstd::string::StringExecFns;
use crate::aggregate::{
    aggregate, clamped_weight_sum, rows_ok, spec_aggregate, spec_run, ExploreError,
};
use crate::rank::{rank, spec_rank, lemma_entry_le_total_ordering};
use crate::report::{report, spec_report, spec_report_head, spec_lines};

verus! {

/// One visited-URL record from the browser-history store.
///
/// `visit_count` is signed because the store's schema is signed, but a
/// well-formed row never carries a negative count.
pub struct HistoryRow {
    pub id: i64,
    pub url: String,
    pub title: String,
    pub visit_count: i64,
    pub typed_count: i64,
    pub last_visit_time: i64,
    pub hidden: i64,
}

/// The whole text a run prints: the domains report, then the local-paths
/// report, each a top-`top_n` listing of the ranked grouping.
pub open spec fn spec_explore_output(rows: Seq<HistoryRow>, top_n: int) -> Seq<char> {
    spec_report("domains"@, spec_rank(spec_aggregate(rows).0), top_n) + spec_report(
        "local paths"@,
        spec_rank(spec_aggregate(rows).1),
        top_n,
    )
}

/// Run the whole pipeline over a row sequence: classify and aggregate every
/// row, rank the two groupings, and render both top-`top_n` reports as one
/// text. A malformed row aborts the run with the first such row's error and
/// no report.
pub fn explore(rows: &Vec<HistoryRow>, top_n: usize) -> (r: Result<String, ExploreError>)
    requires
        clamped_weight_sum(rows@) <= u64::MAX,
    ensures
        r is Ok <==> rows_ok(rows@),
        rows_ok(rows@) ==> (r matches Ok(text) && text@ == spec_explore_output(
            rows@,
            top_n as int,
        )),
        !rows_ok(rows@) ==> (spec_run(rows@) is Err && (r matches Err(e) && e == spec_run(
            rows@,
        )->Err_0)),
{
    match aggregate(rows) {
        Err(e) => Err(e),
        Ok((domains, locals)) => {
            let ranked_domains = rank(domains);
            let ranked_locals = rank(locals);
            let mut text = report("domains", &ranked_domains, top_n);
            let tail = report("local paths", &ranked_locals, top_n);
            text.append(tail.as_str());
            Ok(text)
        },
    }
}

/// An empty row sequence yields empty groupings, empty rankings, and a
/// report that shows zero entries for either grouping: head, banner and
/// blank line only.
pub proof fn lemma_explore_empty(label: Seq<char>, top_n: int)
    ensures
        spec_aggregate(Seq::<HistoryRow>::empty()) == (
            Seq::<(Seq<char>, int)>::empty(),
            Seq::<(Seq<char>, int)>::empty(),
        ),
        spec_rank(Seq::<(Seq<char>, int)>::empty()) == Seq::<(Seq<char>, int)>::empty(),
        spec_report(label, Seq::<(Seq<char>, int)>::empty(), top_n) == spec_report_head(
            label,
            top_n,
        ) + "\n"@,
{
    broadcast use vstd::seq_lib::group_to_multiset_ensures;

    let e = Seq::<(Seq<char>, int)>::empty();
    lemma_entry_le_total_ordering();
    e.lemma_sort_by_ensures(crate::rank::entry_le_fn());
    assert(spec_rank(e).to_multiset() =~= e.to_multiset());
    assert(spec_rank(e).to_multiset().len() == spec_rank(e).len());
    assert(e.to_multiset().len() == e.len());
    assert(spec_rank(e).len() == 0);
    assert(spec_rank(e) =~= e);
    assert(spec_lines(e, if top_n < 0 { top_n } else { 0 }) == Seq::<char>::empty());
    assert(spec_report_head(label, top_n) + Seq::<char>::empty() + "\n"@ =~= spec_report_head(
        label,
        top_n,
    ) + "\n"@);
}

} // verus!
