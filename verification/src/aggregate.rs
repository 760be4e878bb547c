//! Aggregation: fold a stream of history rows into two groupings, one for
//! internet domains and one for local paths, weighting each key by the
//! row's visit count. The first malformed row aborts the whole run.

use vstd::prelude::*;
use crate::HistoryRow;
use crate::classify::{classify, key_of_url, url_is_domain, url_parses, ClassifiedTarget};
use crate::totals::{
    lemma_elem_le_sum, lemma_sum_bump, lemma_sum_nonneg, seq_sum, spec_bump,
    GroupTotals,
};

verus! {

/// Why a run failed. Either a row's URL did not parse, or a row carried a
/// negative visit count; both name the offending row.
#[derive(Debug)]
pub enum ExploreError {
    ParseError { id: i64, url: String },
    NegativeCountError { id: i64, count: i64 },
}

/// A well-formed row: non-negative visit count, parseable URL.
pub open spec fn row_ok(r: HistoryRow) -> bool {
    0 <= r.visit_count && url_parses(r.url@)
}

/// Every row of the sequence is well-formed.
pub open spec fn rows_ok(rows: Seq<HistoryRow>) -> bool {
    forall|i: int| 0 <= i < rows.len() ==> row_ok(#[trigger] rows[i])
}

/// The error a malformed row produces: the count is checked before the URL.
pub open spec fn err_of(r: HistoryRow) -> ExploreError {
    if r.visit_count < 0 {
        ExploreError::NegativeCountError { id: r.id, count: r.visit_count }
    } else {
        ExploreError::ParseError { id: r.id, url: r.url }
    }
}

/// The outcome of a run over the rows in stream order: `Ok` when every row
/// is well-formed, otherwise the error of the first malformed row.
pub open spec fn spec_run(rows: Seq<HistoryRow>) -> Result<(), ExploreError>
    decreases rows.len(),
{
    if rows.len() == 0 {
        Ok(())
    } else if !row_ok(rows[0]) {
        Err(err_of(rows[0]))
    } else {
        spec_run(rows.drop_first())
    }
}

/// The sum of all visit counts.
pub open spec fn weight_sum(rows: Seq<HistoryRow>) -> int
    decreases rows.len(),
{
    if rows.len() == 0 {
        0
    } else {
        weight_sum(rows.drop_last()) + rows.last().visit_count
    }
}

/// A visit count with negative values flattened to zero.
pub open spec fn clamp0(x: int) -> int {
    if x < 0 {
        0
    } else {
        x
    }
}

/// The sum of all visit counts, each clamped at zero from below. This bounds
/// the weight any prefix of the stream can accumulate.
pub open spec fn clamped_weight_sum(rows: Seq<HistoryRow>) -> int
    decreases rows.len(),
{
    if rows.len() == 0 {
        0
    } else {
        clamped_weight_sum(rows.drop_last()) + clamp0(rows.last().visit_count as int)
    }
}

/// The two groupings a row sequence folds to: (domains, local paths). Each
/// row adds its visit count to the entry of its URL's key, creating the
/// entry when the key is new.
pub open spec fn spec_aggregate(rows: Seq<HistoryRow>) -> (
    Seq<(Seq<char>, int)>,
    Seq<(Seq<char>, int)>,
)
    decreases rows.len(),
{
    if rows.len() == 0 {
        (Seq::empty(), Seq::empty())
    } else {
        let prev = spec_aggregate(rows.drop_last());
        let r = rows.last();
        if url_is_domain(r.url@) {
            (spec_bump(prev.0, key_of_url(r.url@), r.visit_count as int), prev.1)
        } else {
            (prev.0, spec_bump(prev.1, key_of_url(r.url@), r.visit_count as int))
        }
    }
}

/// Conservation of weight: the domain-group totals and the local-path-group
/// totals together sum to exactly the sum of the input visit counts.
pub proof fn lemma_weight_conservation(rows: Seq<HistoryRow>)
    ensures
        seq_sum(spec_aggregate(rows).0) + seq_sum(spec_aggregate(rows).1) == weight_sum(rows),
    decreases rows.len(),
{
    if rows.len() > 0 {
        lemma_weight_conservation(rows.drop_last());
        let prev = spec_aggregate(rows.drop_last());
        let r = rows.last();
        if url_is_domain(r.url@) {
            lemma_sum_bump(prev.0, key_of_url(r.url@), r.visit_count as int);
        } else {
            lemma_sum_bump(prev.1, key_of_url(r.url@), r.visit_count as int);
        }
    }
}

/// On an all-well-formed sequence the plain and the clamped sums agree.
proof fn lemma_weight_sum_clamped(rows: Seq<HistoryRow>)
    requires
        rows_ok(rows),
    ensures
        weight_sum(rows) == clamped_weight_sum(rows),
        weight_sum(rows) >= 0,
    decreases rows.len(),
{
    if rows.len() > 0 {
        assert(rows_ok(rows.drop_last())) by {
            assert(forall|i: int|
                0 <= i < rows.len() - 1 ==> rows.drop_last()[i] == #[trigger] rows[i]);
        }
        lemma_weight_sum_clamped(rows.drop_last());
    }
}

/// A prefix's clamped weight, plus the next row's, stays under the whole
/// sequence's clamped weight.
proof fn lemma_clamped_take(rows: Seq<HistoryRow>, i: int)
    requires
        0 <= i <= rows.len(),
    ensures
        clamped_weight_sum(rows.take(i)) <= clamped_weight_sum(rows),
        i < rows.len() ==> clamped_weight_sum(rows.take(i)) + clamp0(rows[i].visit_count as int)
            <= clamped_weight_sum(rows),
    decreases rows.len(),
{
    if i == rows.len() {
        assert(rows.take(i) =~= rows);
    } else {
        let prev = rows.drop_last();
        assert(rows.take(i) =~= prev.take(i));
        lemma_clamped_take(prev, i);
        if i < rows.len() - 1 {
        } else {
            assert(prev.take(i) =~= prev);
        }
    }
}

/// The run's outcome when an earlier-is-fine, here-is-bad row is found: the
/// first malformed row's error.
proof fn lemma_spec_run_first_bad(rows: Seq<HistoryRow>, i: int)
    requires
        0 <= i < rows.len(),
        forall|k: int| 0 <= k < i ==> row_ok(#[trigger] rows[k]),
        !row_ok(rows[i]),
    ensures
        spec_run(rows) == Err::<(), ExploreError>(err_of(rows[i])),
    decreases i,
{
    if i > 0 {
        let rest = rows.drop_first();
        assert(forall|k: int| 0 <= k < i - 1 ==> #[trigger] rest[k] == rows[k + 1]);
        assert(rest[i - 1] == rows[i]);
        lemma_spec_run_first_bad(rest, i - 1);
    }
}

/// The streaming accumulator: owns the two groupings under construction and
/// the running weight, and remembers (in ghost state) the rows folded so far.
pub struct Aggregator {
    domains: GroupTotals,
    locals: GroupTotals,
    weight: u64,
    processed: Ghost<Seq<HistoryRow>>,
}

impl Aggregator {
    /// The rows folded in so far, in arrival order.
    pub closed spec fn rows(self) -> Seq<HistoryRow> {
        self.processed@
    }

    /// The accumulator's invariant: the groupings are exactly the fold of
    /// the processed rows, every processed row was well-formed, and the
    /// running weight is their total visit count.
    pub closed spec fn inv(self) -> bool {
        &&& self.domains.wf()
        &&& self.locals.wf()
        &&& self.domains@ == spec_aggregate(self.processed@).0
        &&& self.locals@ == spec_aggregate(self.processed@).1
        &&& rows_ok(self.processed@)
        &&& self.weight as int == weight_sum(self.processed@)
    }

    /// A fresh accumulator with nothing folded in.
    pub fn new() -> (r: Aggregator)
        ensures
            r.inv(),
            r.rows() == Seq::<HistoryRow>::empty(),
    {
        let r = Aggregator {
            domains: GroupTotals::new(),
            locals: GroupTotals::new(),
            weight: 0,
            processed: Ghost(Seq::empty()),
        };
        r
    }

    /// The total visit weight folded in so far.
    pub fn weight_total(&self) -> (r: u64)
        requires
            self.inv(),
        ensures
            r as int == weight_sum(self.rows()),
    {
        self.weight
    }

    /// Fold one row in. A malformed row (negative count first, then an
    /// unparseable URL) yields its error and leaves the accumulator as it
    /// was; a well-formed row's visit count is added to its key's group.
    pub fn push(&mut self, row: &HistoryRow) -> (r: Result<(), ExploreError>)
        requires
            old(self).inv(),
            weight_sum(old(self).rows()) + row.visit_count <= u64::MAX,
        ensures
            final(self).inv(),
            r is Ok <==> row_ok(*row),
            row_ok(*row) ==> final(self).rows() == old(self).rows().push(*row),
            !row_ok(*row) ==> r == Err::<(), ExploreError>(err_of(*row)) && final(self).rows()
                == old(self).rows(),
    {
        if row.visit_count < 0 {
            return Err(ExploreError::NegativeCountError { id: row.id, count: row.visit_count });
        }
        let w = row.visit_count as u64;
        let ghost p0 = self.processed@;
        proof {
            lemma_weight_conservation(p0);
            lemma_sum_nonneg(self.domains@);
            lemma_sum_nonneg(self.locals@);
        }
        match classify(row.url.as_str()) {
            None => Err(ExploreError::ParseError { id: row.id, url: row.url.clone() }),
            Some(ClassifiedTarget::Domain(d)) => {
                proof {
                    let k = d@;
                    if crate::totals::has_key(self.domains@, k) {
                        lemma_elem_le_sum(
                            self.domains@,
                            crate::totals::key_index(self.domains@, k),
                        );
                    }
                }
                self.domains.add(d.as_str(), w);
                self.weight = self.weight + w;
                proof {
                    self.processed@ = p0.push(*row);
                }
                proof {
                    let p1 = p0.push(*row);
                    assert(p1.drop_last() =~= p0);
                    assert(p1.last() == *row);
                    assert(rows_ok(p1)) by {
                        assert(forall|i: int| 0 <= i < p0.len() ==> p1[i] == #[trigger] p0[i]);
                        assert(row_ok(p1[p0.len() as int]));
                    }
                }
                Ok(())
            },
            Some(ClassifiedTarget::LocalPath(p)) => {
                proof {
                    let k = p@;
                    if crate::totals::has_key(self.locals@, k) {
                        lemma_elem_le_sum(
                            self.locals@,
                            crate::totals::key_index(self.locals@, k),
                        );
                    }
                }
                self.locals.add(p.as_str(), w);
                self.weight = self.weight + w;
                proof {
                    self.processed@ = p0.push(*row);
                }
                proof {
                    let p1 = p0.push(*row);
                    assert(p1.drop_last() =~= p0);
                    assert(p1.last() == *row);
                    assert(rows_ok(p1)) by {
                        assert(forall|i: int| 0 <= i < p0.len() ==> p1[i] == #[trigger] p0[i]);
                        assert(row_ok(p1[p0.len() as int]));
                    }
                }
                Ok(())
            },
        }
    }

    /// Freeze the accumulator and hand out the two finished groupings:
    /// (domains, local paths).
    pub fn finish(self) -> (r: (GroupTotals, GroupTotals))
        requires
            self.inv(),
        ensures
            r.0@ == spec_aggregate(self.rows()).0,
            r.1@ == spec_aggregate(self.rows()).1,
            r.0.wf(),
            r.1.wf(),
    {
        (self.domains, self.locals)
    }
}

/// Fold a whole row sequence: the two finished groupings when every row is
/// well-formed, otherwise the first malformed row's error (rows before it
/// are folded and discarded).
pub fn aggregate(rows: &Vec<HistoryRow>) -> (r: Result<(GroupTotals, GroupTotals), ExploreError>)
    requires
        clamped_weight_sum(rows@) <= u64::MAX,
    ensures
        r is Ok <==> rows_ok(rows@),
        rows_ok(rows@) ==> (r matches Ok(p) && p.0@ == spec_aggregate(rows@).0 && p.1@
            == spec_aggregate(rows@).1 && p.0.wf() && p.1.wf()),
        !rows_ok(rows@) ==> (spec_run(rows@) is Err && (r matches Err(e) && e == spec_run(
            rows@,
        )->Err_0)),
{
    let mut agg = Aggregator::new();
    let n = rows.len();
    let mut i: usize = 0;
    proof {
        assert(rows@.take(0) =~= Seq::<HistoryRow>::empty());
    }
    while i < n
        invariant
            agg.inv(),
            agg.rows() == rows@.take(i as int),
            rows_ok(rows@.take(i as int)),
            i <= n,
            n == rows@.len(),
            clamped_weight_sum(rows@) <= u64::MAX,
        decreases n - i,
    {
        let row = &rows[i];
        proof {
            lemma_weight_sum_clamped(rows@.take(i as int));
            lemma_clamped_take(rows@, i as int);
        }
        match agg.push(row) {
            Ok(_) => {
                proof {
                    assert(rows@.take(i as int + 1) =~= rows@.take(i as int).push(rows@[i as int]));
                    assert(rows_ok(rows@.take(i as int + 1))) by {
                        assert(forall|k: int|
                            0 <= k < i as int + 1 ==> rows@.take(i as int + 1)[k] == #[trigger] rows@[k]);
                        assert(row_ok(rows@[i as int]));
                    }
                }
            },
            Err(e) => {
                proof {
                    assert(forall|k: int|
                        0 <= k < i as int ==> rows@.take(i as int)[k] == #[trigger] rows@[k]);
                    lemma_spec_run_first_bad(rows@, i as int);
                    assert(!rows_ok(rows@)) by {
                        assert(!row_ok(rows@[i as int]));
                    }
                }
                return Err(e);
            },
        }
        i += 1;
    }
    proof {
        assert(rows@.take(n as int) =~= rows@);
    }
    let (d, l) = agg.finish();
    Ok((d, l))
}

} // verus!
