//! Ranking: order the entries of a finalized grouping by total count
//! descending, breaking ties by key descending (the lexicographically
//! greater key first).

use vstd::prelude::*;
use vstd::relations::{sorted_by, strict_total_ordering, total_ordering};
use vstd::seq_lib::{group_to_multiset_ensures, lemma_multiset_commutative, lemma_sorted_unique};
use vstd::multiset::group_multiset_axioms;
use vstd::string::StrSliceExecFns;
use crate::totals::{views_of, keys_distinct, GroupTotals, RankedEntry};

verus! {

/// Lexicographic "strictly less" on character sequences, by scalar value.
pub open spec fn lex_lt(a: Seq<char>, b: Seq<char>) -> bool
    decreases a.len(),
{
    if b.len() == 0 {
        false
    } else if a.len() == 0 {
        true
    } else if a[0] != b[0] {
        (a[0] as u32) < (b[0] as u32)
    } else {
        lex_lt(a.skip(1), b.skip(1))
    }
}

/// Two sequences are equal or one is lexicographically below the other.
pub proof fn lemma_lex_lt_connected(a: Seq<char>, b: Seq<char>)
    ensures
        a == b || lex_lt(a, b) || lex_lt(b, a),
    decreases a.len(),
{
    if a.len() == 0 && b.len() == 0 {
        assert(a =~= b);
    } else if a.len() > 0 && b.len() > 0 && a[0] != b[0] {
        vstd::utf8::char_u32_cast(a[0], a[0] as u32);
        vstd::utf8::char_u32_cast(b[0], b[0] as u32);
        assert((a[0] as u32) != (b[0] as u32));
    } else if a.len() > 0 && b.len() > 0 && a[0] == b[0] {
        lemma_lex_lt_connected(a.skip(1), b.skip(1));
        if a.skip(1) == b.skip(1) {
            assert(a.skip(1).len() == a.len() - 1);
            assert(b.skip(1).len() == b.len() - 1);
            assert(a.len() == b.len());
            assert forall|i: int| 0 <= i < a.len() implies a[i] == b[i] by {
                if i > 0 {
                    assert(a.skip(1)[i - 1] == a[i]);
                    assert(b.skip(1)[i - 1] == b[i]);
                }
            }
            assert(a =~= b);
        }
    }
}

/// At most one of `lex_lt(a, b)` and `lex_lt(b, a)` holds.
pub proof fn lemma_lex_lt_asymmetric(a: Seq<char>, b: Seq<char>)
    ensures
        !(lex_lt(a, b) && lex_lt(b, a)),
    decreases a.len(),
{
    if a.len() > 0 && b.len() > 0 && a[0] == b[0] {
        lemma_lex_lt_asymmetric(a.skip(1), b.skip(1));
    }
}

/// Lexicographic order is transitive.
pub proof fn lemma_lex_lt_transitive(a: Seq<char>, b: Seq<char>, c: Seq<char>)
    requires
        lex_lt(a, b),
        lex_lt(b, c),
    ensures
        lex_lt(a, c),
    decreases a.len(),
{
    if a.len() > 0 && b.len() > 0 && c.len() > 0 && a[0] == b[0] && b[0] == c[0] {
        lemma_lex_lt_transitive(a.skip(1), b.skip(1), c.skip(1));
    }
}

/// The ranking order on (key, total) values: greater total first, and on
/// equal totals the lexicographically greater key first.
pub open spec fn entry_lt(a: (Seq<char>, int), b: (Seq<char>, int)) -> bool {
    b.1 < a.1 || (a.1 == b.1 && lex_lt(b.0, a.0))
}

/// The ranking order as a function value.
pub open spec fn entry_lt_fn() -> spec_fn((Seq<char>, int), (Seq<char>, int)) -> bool {
    |a: (Seq<char>, int), b: (Seq<char>, int)| entry_lt(a, b)
}

/// The reflexive closure of the ranking order, as a function value.
pub open spec fn entry_le_fn() -> spec_fn((Seq<char>, int), (Seq<char>, int)) -> bool {
    |a: (Seq<char>, int), b: (Seq<char>, int)| a == b || entry_lt(a, b)
}

/// The ranking order is a strict total order: irreflexive, transitive, and
/// of any two distinct entries exactly one precedes the other.
pub proof fn lemma_entry_order_strict_total()
    ensures
        strict_total_ordering(entry_lt_fn()),
{
    assert forall|x: (Seq<char>, int), y: (Seq<char>, int)|
        #[trigger] entry_lt_fn()(x, y) implies !entry_lt_fn()(y, x) by {
        lemma_lex_lt_asymmetric(x.0, y.0);
    }
    assert forall|x: (Seq<char>, int), y: (Seq<char>, int)| x != y implies #[trigger] entry_lt_fn()(
        x,
        y,
    ) || #[trigger] entry_lt_fn()(y, x) by {
        if x.1 == y.1 {
            lemma_lex_lt_connected(x.0, y.0);
        }
    }
    assert forall|x: (Seq<char>, int), y: (Seq<char>, int), z: (Seq<char>, int)|
        #[trigger] entry_lt_fn()(x, y) && #[trigger] entry_lt_fn()(y, z) implies entry_lt_fn()(
        x,
        z,
    ) by {
        if x.1 == y.1 && y.1 == z.1 {
            lemma_lex_lt_transitive(z.0, y.0, x.0);
        }
    }
}

/// The reflexive closure of the ranking order is a total ordering.
pub proof fn lemma_entry_le_total_ordering()
    ensures
        total_ordering(entry_le_fn()),
{
    lemma_entry_order_strict_total();
    assert forall|x: (Seq<char>, int), y: (Seq<char>, int)|
        #[trigger] entry_le_fn()(x, y) && #[trigger] entry_le_fn()(y, x) implies x == y by {
        if x != y {
            assert(entry_lt_fn()(x, y) && entry_lt_fn()(y, x));
        }
    }
    assert forall|x: (Seq<char>, int), y: (Seq<char>, int), z: (Seq<char>, int)|
        #[trigger] entry_le_fn()(x, y) && #[trigger] entry_le_fn()(y, z) implies entry_le_fn()(
        x,
        z,
    ) by {
        if x != y && y != z {
            assert(entry_lt_fn()(x, y) && entry_lt_fn()(y, z));
        }
    }
    assert forall|x: (Seq<char>, int), y: (Seq<char>, int)| #[trigger]
        entry_le_fn()(x, y) || #[trigger] entry_le_fn()(y, x) by {
        if x != y {
            assert(entry_lt_fn()(x, y) || entry_lt_fn()(y, x));
        }
    }
}

/// The ranked form of a grouping's entries: the unique reordering that the
/// ranking order sorts.
pub open spec fn spec_rank(s: Seq<(Seq<char>, int)>) -> Seq<(Seq<char>, int)> {
    s.sort_by(entry_le_fn())
}

/// Re-ranking an already-ranked sequence returns it unchanged: ranking is
/// idempotent.
pub proof fn lemma_rank_idempotent(s: Seq<(Seq<char>, int)>)
    requires
        sorted_by(s, entry_le_fn()),
    ensures
        spec_rank(s) == s,
{
    lemma_entry_le_total_ordering();
    s.lemma_sort_by_ensures(entry_le_fn());
    lemma_sorted_unique(spec_rank(s), s, entry_le_fn());
}

/// A sequence somewhere holds two occurrences of any value it counts twice.
proof fn lemma_count_two_indices(s: Seq<(Seq<char>, int)>, x: (Seq<char>, int))
    requires
        s.to_multiset().count(x) >= 2,
    ensures
        exists|i: int, j: int| 0 <= i < j < s.len() && s[i] == x && s[j] == x,
{
    broadcast use group_to_multiset_ensures;
    broadcast use group_multiset_axioms;

    assert(s.contains(x));
    let i = choose|i: int| 0 <= i < s.len() && s[i] == x;
    let r = s.remove(i);
    assert(r.to_multiset() =~= s.to_multiset().remove(x));
    assert(r.to_multiset().count(x) >= 1);
    assert(r.contains(x));
    let k = choose|k: int| 0 <= k < r.len() && r[k] == x;
    s.remove_ensures(i);
    if k < i {
        assert(s[k] == x && s[i] == x && 0 <= k < i < s.len());
    } else {
        assert(s[k + 1] == x && s[i] == x && 0 <= i < k + 1 < s.len());
    }
}

/// Key uniqueness survives any reordering of the entries.
pub proof fn lemma_distinct_keys_perm(a: Seq<(Seq<char>, int)>, b: Seq<(Seq<char>, int)>)
    requires
        a.to_multiset() == b.to_multiset(),
        keys_distinct(a),
    ensures
        keys_distinct(b),
{
    broadcast use group_to_multiset_ensures;
    broadcast use group_multiset_axioms;

    assert forall|i: int, j: int| 0 <= i < j < b.len() implies (#[trigger] b[i]).0 != (
    #[trigger] b[j]).0 by {
        if b[i].0 == b[j].0 {
            if b[i] == b[j] {
                let r = b.remove(j);
                b.remove_ensures(j);
                assert(r.to_multiset() =~= b.to_multiset().remove(b[j]));
                assert(r[i] == b[i]);
                assert(r.contains(b[i]));
                assert(r.to_multiset().count(b[i]) > 0);
                assert(b.to_multiset().count(b[i]) >= 2);
                lemma_count_two_indices(a, b[i]);
                let (i1, j1) = choose|i1: int, j1: int|
                    0 <= i1 < j1 < a.len() && a[i1] == b[i] && a[j1] == b[i];
                assert(a[i1].0 == a[j1].0);
                assert(false);
            } else {
                assert(b.contains(b[i])) by { assert(0 <= i < b.len()); }
                assert(b.contains(b[j])) by { assert(0 <= j < b.len()); }
                assert(b.to_multiset().count(b[i]) > 0);
                assert(b.to_multiset().count(b[j]) > 0);
                assert(a.to_multiset().count(b[i]) > 0);
                assert(a.to_multiset().count(b[j]) > 0);
                assert(a.contains(b[i]));
                assert(a.contains(b[j]));
                let i1 = choose|i1: int| 0 <= i1 < a.len() && a[i1] == b[i];
                let j1 = choose|j1: int| 0 <= j1 < a.len() && a[j1] == b[j];
                assert(i1 != j1);
                assert(a[i1].0 == a[j1].0);
                assert(false);
            }
        }
    }
}

/// Inserting an element anywhere adds exactly it to the contents.
proof fn lemma_insert_to_multiset(s: Seq<(Seq<char>, int)>, i: int, x: (Seq<char>, int))
    requires
        0 <= i <= s.len(),
    ensures
        s.insert(i, x).to_multiset() =~= s.to_multiset().insert(x),
{
    broadcast use group_to_multiset_ensures;
    broadcast use group_multiset_axioms;

    let left = s.subrange(0, i);
    let right = s.subrange(i, s.len() as int);
    assert(s =~= left + right);
    lemma_multiset_commutative(left, right);
    lemma_multiset_commutative(left.push(x), right);
    assert(left.push(x).to_multiset() =~= left.to_multiset().insert(x));
    assert(s.insert(i, x) == left.push(x) + right);
    assert((left.push(x) + right).to_multiset() =~= (left + right).to_multiset().insert(x));
}

/// The mathematical values of a sequence of entries after an insertion.
proof fn lemma_views_insert(s: Seq<RankedEntry>, i: int, e: RankedEntry)
    requires
        0 <= i <= s.len(),
    ensures
        views_of(s.insert(i, e)) =~= views_of(s).insert(i, e@),
{
    s.insert_ensures(i, e);
    views_of(s).insert_ensures(i, e@);
}

/// The mathematical values of a sequence of entries after a removal.
proof fn lemma_views_remove(s: Seq<RankedEntry>, i: int)
    requires
        0 <= i < s.len(),
    ensures
        views_of(s.remove(i)) =~= views_of(s).remove(i),
{
    s.remove_ensures(i);
    views_of(s).remove_ensures(i);
}

/// Lexicographic comparison of two strings, proved against their views.
pub fn str_lt(a: &str, b: &str) -> (r: bool)
    ensures
        r == lex_lt(a@, b@),
{
    let la = a.unicode_len();
    let lb = b.unicode_len();
    let mut i: usize = 0;
    proof {
        assert(a@.skip(0) =~= a@);
        assert(b@.skip(0) =~= b@);
    }
    loop
        invariant
            i <= la,
            i <= lb,
            la == a@.len(),
            lb == b@.len(),
            lex_lt(a@, b@) == lex_lt(a@.skip(i as int), b@.skip(i as int)),
        decreases la - i,
    {
        if i >= lb {
            return false;
        }
        if i >= la {
            return true;
        }
        let ca = a.get_char(i);
        let cb = b.get_char(i);
        if ca != cb {
            return (ca as u32) < (cb as u32);
        }
        proof {
            let sa = a@.skip(i as int);
            let sb = b@.skip(i as int);
            assert(sa[0] == a@[i as int]);
            assert(sb[0] == b@[i as int]);
            assert(sa.skip(1) =~= a@.skip(i as int + 1));
            assert(sb.skip(1) =~= b@.skip(i as int + 1));
            assert(lex_lt(sa, sb) == lex_lt(sa.skip(1), sb.skip(1)));
        }
        i += 1;
    }
}

/// Whether `a` comes before `b` in the ranked order.
pub fn precedes(a: &RankedEntry, b: &RankedEntry) -> (r: bool)
    ensures
        r == entry_lt(a@, b@),
{
    if b.total < a.total {
        true
    } else if a.total < b.total {
        false
    } else {
        str_lt(b.key.as_str(), a.key.as_str())
    }
}

/// Produce the ranked listing of a finalized grouping: the same (key, total)
/// pairs, in the unique order the ranking relation admits — total count
/// descending, ties broken by key descending. Deterministic: two groupings
/// with the same contents rank identically.
pub fn rank(totals: GroupTotals) -> (r: Vec<RankedEntry>)
    requires
        totals.wf(),
    ensures
        views_of(r@) == spec_rank(totals@),
        views_of(r@).to_multiset() == totals@.to_multiset(),
        sorted_by(views_of(r@), entry_lt_fn()),
        keys_distinct(views_of(r@)),
{
    let ghost t0 = totals@;
    let mut rest = totals.into_entries();
    let mut out: Vec<RankedEntry> = Vec::new();
    proof {
        broadcast use group_to_multiset_ensures;
        broadcast use group_multiset_axioms;

        assert(views_of(out@) =~= Seq::<(Seq<char>, int)>::empty());
        assert(views_of(out@) + views_of(rest@) =~= views_of(rest@));
    }
    while rest.len() > 0
        invariant
            sorted_by(views_of(out@), entry_lt_fn()),
            (views_of(out@) + views_of(rest@)).to_multiset() == t0.to_multiset(),
            keys_distinct(t0),
        decreases rest.len(),
    {
        let ghost ov = views_of(out@);
        let ghost rv = views_of(rest@);
        proof {
            lemma_distinct_keys_perm(t0, ov + rv);
        }
        let ghost r0 = rest@;
        let e = rest.remove(0);
        proof {
            broadcast use group_to_multiset_ensures;
            broadcast use group_multiset_axioms;

            lemma_views_remove(r0, 0);
            assert(views_of(rest@) =~= rv.remove(0));
            assert(e@ == rv[0]);
            assert(rv.remove(0).to_multiset() =~= rv.to_multiset().remove(rv[0]));
        }
        let mut pos: usize = 0;
        while pos < out.len() && precedes(&out[pos], &e)
            invariant
                pos <= out.len(),
                ov == views_of(out@),
                forall|k: int| 0 <= k < pos ==> entry_lt(#[trigger] ov[k], e@),
            decreases out.len() - pos,
        {
            pos += 1;
        }
        proof {
            lemma_entry_order_strict_total();
            // every key of `out` differs from e's key
            assert forall|k: int| 0 <= k < ov.len() implies (#[trigger] ov[k]).0 != e@.0 by {
                assert((ov + rv)[k] == ov[k]);
                assert((ov + rv)[ov.len() as int] == rv[0]);
            }
            assert forall|k: int| pos <= k < ov.len() implies entry_lt(e@, #[trigger] ov[k]) by {
                assert(ov[k].0 != e@.0);
                assert(ov[k] != e@);
                if k == pos {
                    assert(!entry_lt(ov[k], e@));
                    assert(entry_lt_fn()(e@, ov[k]) || entry_lt_fn()(ov[k], e@));
                } else {
                    assert(!entry_lt(ov[pos as int], e@));
                    assert(ov[pos as int] != e@) by {
                        assert((ov + rv)[pos as int] == ov[pos as int]);
                    }
                    assert(entry_lt_fn()(e@, ov[pos as int]) || entry_lt_fn()(
                        ov[pos as int],
                        e@,
                    ));
                    assert(entry_lt(e@, ov[pos as int]));
                    assert(entry_lt_fn()(ov[pos as int], ov[k]));
                    assert(entry_lt_fn()(e@, ov[pos as int]) && entry_lt_fn()(ov[pos as int], ov[k])
                        ==> entry_lt_fn()(e@, ov[k]));
                }
            }
        }
        let ghost rv2 = views_of(rest@);
        let ghost o0 = out@;
        out.insert(pos, e);
        proof {
            broadcast use group_to_multiset_ensures;
            broadcast use group_multiset_axioms;

            lemma_views_insert(o0, pos as int, e);
            assert(views_of(out@) =~= ov.insert(pos as int, e@));
            lemma_insert_to_multiset(ov, pos as int, e@);
            let nv = views_of(out@);
            ov.insert_ensures(pos as int, e@);
            assert forall|i: int, j: int| 0 <= i < j < nv.len() implies entry_lt_fn()(
                #[trigger] nv[i],
                #[trigger] nv[j],
            ) by {
                if j < pos {
                    assert(nv[i] == ov[i] && nv[j] == ov[j]);
                } else if i < pos && j == pos {
                    assert(nv[i] == ov[i] && nv[j] == e@);
                } else if i < pos && j > pos {
                    assert(nv[i] == ov[i] && nv[j] == ov[j - 1]);
                } else if i == pos {
                    assert(nv[i] == e@ && nv[j] == ov[j - 1]);
                } else {
                    assert(nv[i] == ov[i - 1] && nv[j] == ov[j - 1]);
                }
            }
            assert((views_of(out@) + views_of(rest@)).to_multiset() =~= t0.to_multiset()) by {
                lemma_multiset_commutative(nv, rv2);
                lemma_multiset_commutative(ov, rv);
                assert(nv.to_multiset() =~= ov.to_multiset().insert(e@));
                assert(rv2.to_multiset() =~= rv.to_multiset().remove(rv[0]));
                assert(rv.to_multiset().count(rv[0]) >= 1) by {
                    assert(rv.contains(rv[0])) by { assert(0 <= 0 < rv.len()); }
                }
            }
        }
    }
    proof {
        broadcast use group_to_multiset_ensures;

        assert(views_of(rest@) =~= Seq::<(Seq<char>, int)>::empty());
        assert(views_of(out@) + views_of(rest@) =~= views_of(out@));
        let ov = views_of(out@);
        assert(ov.to_multiset() == t0.to_multiset());
        lemma_entry_le_total_ordering();
        t0.lemma_sort_by_ensures(entry_le_fn());
        assert(sorted_by(ov, entry_le_fn())) by {
            assert forall|i: int, j: int| 0 <= i < j < ov.len() implies #[trigger] entry_le_fn()(
                ov[i],
                ov[j],
            ) by {
                assert(entry_lt_fn()(ov[i], ov[j]));
            }
        }
        lemma_sorted_unique(ov, spec_rank(t0), entry_le_fn());
        lemma_distinct_keys_perm(t0, ov);
    }
    out
}

} // verus!
