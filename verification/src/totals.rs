//! Per-group accumulated visit totals: an associative container from group
//! key (domain name or local path) to the visit-weight it has accumulated.

use vstd::prelude::*;
use vstd::string::StrSliceExecFns;

verus! {

/// One (key, total) pair of a grouping, and one position of a ranked listing.
pub struct RankedEntry {
    pub key: String,
    pub total: u64,
}

impl View for RankedEntry {
    type V = (Seq<char>, int);

    open spec fn view(&self) -> (Seq<char>, int) {
        (self.key@, self.total as int)
    }
}

/// The mathematical values of a sequence of entries.
pub open spec fn views_of(s: Seq<RankedEntry>) -> Seq<(Seq<char>, int)> {
    s.map_values(|e: RankedEntry| e@)
}

/// No two entries share a key.
pub open spec fn keys_distinct(s: Seq<(Seq<char>, int)>) -> bool {
    forall|i: int, j: int|
        0 <= i < j < s.len() ==> (#[trigger] s[i]).0 != (#[trigger] s[j]).0
}

/// The sum of all totals of a sequence of entries.
pub open spec fn seq_sum(s: Seq<(Seq<char>, int)>) -> int
    decreases s.len(),
{
    if s.len() == 0 {
        0
    } else {
        seq_sum(s.drop_last()) + s.last().1
    }
}

/// Whether some entry carries the key.
pub open spec fn has_key(s: Seq<(Seq<char>, int)>, k: Seq<char>) -> bool {
    exists|i: int| 0 <= i < s.len() && (#[trigger] s[i]).0 == k
}

/// The position of the entry carrying the key (meaningful when the keys are
/// distinct and `has_key` holds).
pub open spec fn key_index(s: Seq<(Seq<char>, int)>, k: Seq<char>) -> int {
    choose|i: int| 0 <= i < s.len() && (#[trigger] s[i]).0 == k
}

/// The total accumulated for a key, zero when the key is absent.
pub open spec fn spec_total(s: Seq<(Seq<char>, int)>, k: Seq<char>) -> int {
    if has_key(s, k) {
        s[key_index(s, k)].1
    } else {
        0
    }
}

/// One accumulation step: add `w` to the key's entry, creating the entry
/// with value `w` when the key is new.
pub open spec fn spec_bump(s: Seq<(Seq<char>, int)>, k: Seq<char>, w: int) -> Seq<
    (Seq<char>, int),
> {
    if has_key(s, k) {
        s.update(key_index(s, k), (k, s[key_index(s, k)].1 + w))
    } else {
        s.push((k, w))
    }
}

/// Every total of the sequence is a valid `u64` value.
pub open spec fn totals_in_range(s: Seq<(Seq<char>, int)>) -> bool {
    forall|i: int| 0 <= i < s.len() ==> 0 <= (#[trigger] s[i]).1 <= u64::MAX
}

/// Each entry's total is bounded by the sum of all (non-negative) totals.
pub proof fn lemma_elem_le_sum(s: Seq<(Seq<char>, int)>, i: int)
    requires
        totals_in_range(s),
        0 <= i < s.len(),
    ensures
        s[i].1 <= seq_sum(s),
    decreases s.len(),
{
    lemma_sum_nonneg(s.drop_last());
    if i == s.len() - 1 {
    } else {
        lemma_elem_le_sum(s.drop_last(), i);
    }
}

/// A sum of non-negative totals is non-negative.
pub proof fn lemma_sum_nonneg(s: Seq<(Seq<char>, int)>)
    requires
        totals_in_range(s),
    ensures
        seq_sum(s) >= 0,
    decreases s.len(),
{
    if s.len() > 0 {
        lemma_sum_nonneg(s.drop_last());
    }
}

/// Updating one entry's total changes the sum by the difference.
proof fn lemma_sum_update(s: Seq<(Seq<char>, int)>, j: int, p: (Seq<char>, int))
    requires
        0 <= j < s.len(),
    ensures
        seq_sum(s.update(j, p)) == seq_sum(s) - s[j].1 + p.1,
    decreases s.len(),
{
    let t = s.update(j, p);
    if j == s.len() - 1 {
        assert(t.drop_last() =~= s.drop_last());
    } else {
        assert(t.drop_last() =~= s.drop_last().update(j, p));
        lemma_sum_update(s.drop_last(), j, p);
    }
}

/// One accumulation step grows the sum by exactly the added weight.
pub proof fn lemma_sum_bump(s: Seq<(Seq<char>, int)>, k: Seq<char>, w: int)
    ensures
        seq_sum(spec_bump(s, k, w)) == seq_sum(s) + w,
{
    if has_key(s, k) {
        let j = key_index(s, k);
        lemma_sum_update(s, j, (k, s[j].1 + w));
    } else {
        let t = s.push((k, w));
        assert(t.drop_last() =~= s);
    }
}

/// A finalized (or under-construction) grouping: group key to accumulated
/// visit-weight total, with at most one entry per key.
pub struct GroupTotals {
    entries: Vec<RankedEntry>,
}

impl View for GroupTotals {
    type V = Seq<(Seq<char>, int)>;

    closed spec fn view(&self) -> Seq<(Seq<char>, int)> {
        views_of(self.entries@)
    }
}

impl GroupTotals {
    /// Well-formedness: keys are unique, totals fit the machine word.
    pub open spec fn wf(self) -> bool {
        keys_distinct(self@) && totals_in_range(self@)
    }

    /// An empty grouping.
    pub fn new() -> (r: GroupTotals)
        ensures
            r@ == Seq::<(Seq<char>, int)>::empty(),
            r.wf(),
    {
        let r = GroupTotals { entries: Vec::new() };
        proof {
            assert(r@ =~= Seq::<(Seq<char>, int)>::empty());
        }
        r
    }

    /// How many distinct keys the grouping holds.
    pub fn len(&self) -> (r: usize)
        ensures
            r == self@.len(),
    {
        self.entries.len()
    }

    /// The total accumulated for `key`, zero when the key is absent.
    pub fn total_of(&self, key: &str) -> (r: u64)
        requires
            self.wf(),
        ensures
            r as int == spec_total(self@, key@),
    {
        let n = self.entries.len();
        let mut i: usize = 0;
        while i < n
            invariant
                self.wf(),
                n == self@.len(),
                i <= n,
                n == self.entries@.len(),
                forall|j: int| 0 <= j < i ==> (#[trigger] self@[j]).0 != key@,
            decreases n - i,
        {
            let e: &RankedEntry = &self.entries[i];
            if str_eq(e.key.as_str(), key) {
                proof {
                    assert(self@[i as int].0 == key@);
                    assert(has_key(self@, key@));
                    let j = key_index(self@, key@);
                    assert(j == i as int);
                }
                return e.total;
            }
            i += 1;
        }
        proof {
            assert(!has_key(self@, key@));
        }
        0
    }

    /// Add `w` to the key's entry, creating it (from zero) when absent.
    pub fn add(&mut self, key: &str, w: u64)
        requires
            old(self).wf(),
            spec_total(old(self)@, key@) + w <= u64::MAX,
        ensures
            final(self)@ == spec_bump(old(self)@, key@, w as int),
            final(self).wf(),
    {
        let ghost s0 = self@;
        let n = self.entries.len();
        let mut i: usize = 0;
        while i < n
            invariant
                self.wf(),
                self@ == s0,
                s0 == old(self)@,
                spec_total(s0, key@) + w <= u64::MAX,
                n == self.entries@.len(),
                i <= n,
                forall|j: int| 0 <= j < i ==> (#[trigger] self@[j]).0 != key@,
            decreases n - i,
        {
            let found = {
                let e: &RankedEntry = &self.entries[i];
                str_eq(e.key.as_str(), key)
            };
            if found {
                proof {
                    assert(self@[i as int].0 == key@);
                    assert(has_key(s0, key@));
                    let j = key_index(s0, key@);
                    assert(s0[j].0 == key@);
                    assert(j == i as int);
                }
                let ghost se = self.entries@;
                let mut e = self.entries.remove(i);
                proof {
                    assert(e@ == s0[i as int]);
                }
                e.total = e.total + w;
                self.entries.insert(i, e);
                proof {
                    let j = i as int;
                    se.remove_ensures(j);
                    se.remove(j).insert_ensures(j, e);
                    assert(self.entries@ =~= se.update(j, e));
                    assert(self@ =~= s0.update(j, (key@, s0[j].1 + w)));
                }
                return ;
            }
            i += 1;
        }
        proof {
            assert(!has_key(s0, key@));
        }
        self.entries.push(RankedEntry { key: key.to_owned(), total: w });
        proof {
            assert(self@ =~= s0.push((key@, w as int)));
        }
    }

    /// Hand the entries out, consuming the grouping.
    pub fn into_entries(self) -> (r: Vec<RankedEntry>)
        ensures
            views_of(r@) == self@,
    {
        self.entries
    }
}

/// Character-by-character string equality, proved against the string views.
pub fn str_eq(a: &str, b: &str) -> (r: bool)
    ensures
        r == (a@ == b@),
{
    let la = a.unicode_len();
    let lb = b.unicode_len();
    if la != lb {
        return false;
    }
    let mut i: usize = 0;
    while i < la
        invariant
            la == a@.len(),
            lb == b@.len(),
            la == lb,
            i <= la,
            forall|j: int| 0 <= j < i ==> a@[j] == b@[j],
        decreases la - i,
    {
        if a.get_char(i) != b.get_char(i) {
            return false;
        }
        i += 1;
    }
    proof {
        assert(a@ =~= b@);
    }
    true
}

} // verus!
