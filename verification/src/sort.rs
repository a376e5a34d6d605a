//! A stable sort by a two-part rank, and what it guarantees.

use crate::index::{ascending, keys_of, ByDistance, ByTime, DistanceGetter, TimeGetter};
use vstd::prelude::*;

verus! {

/// A way to rank entries: by a major key, and among equal major keys by a
/// minor key.
pub trait Rank<T> {
    spec fn rank(item: &T) -> (int, int);

    fn read(item: &T) -> (r: (i64, i64))
        ensures
            r.0 == Self::rank(item).0,
            r.1 == Self::rank(item).1,
    ;
}

/// Ranks entries by time alone.
pub struct TimeRank;

/// Ranks entries by distance, and entries at one distance by time.
pub struct DistanceTimeRank;

impl<T: TimeGetter> Rank<T> for TimeRank {
    open spec fn rank(item: &T) -> (int, int) {
        (item.time_of(), 0)
    }

    fn read(item: &T) -> (r: (i64, i64)) {
        (item.get_time(), 0)
    }
}

impl<T: TimeGetter + DistanceGetter> Rank<T> for DistanceTimeRank {
    open spec fn rank(item: &T) -> (int, int) {
        (item.distance_of(), item.time_of())
    }

    fn read(item: &T) -> (r: (i64, i64)) {
        (item.get_distance(), item.get_time())
    }
}

/// An entry of rank `a` may stand before one of rank `b`.
pub open spec fn in_order(a: (int, int), b: (int, int)) -> bool {
    a.0 < b.0 || (a.0 == b.0 && a.1 <= b.1)
}

/// Every entry may stand before all that follow it.
pub open spec fn ordered<T, R: Rank<T>>(s: Seq<T>) -> bool {
    forall|i: int, j: int|
        0 <= i <= j < s.len() ==> in_order(#[trigger] R::rank(&s[i]), #[trigger] R::rank(&s[j]))
}

/// `x` put into `s` behind every entry that may stand before it.
pub open spec fn insert_sorted<T, R: Rank<T>>(s: Seq<T>, x: T) -> Seq<T>
    decreases s.len(),
{
    if s.len() == 0 {
        seq![x]
    } else if in_order(R::rank(&s.last()), R::rank(&x)) {
        s.push(x)
    } else {
        insert_sorted::<T, R>(s.drop_last(), x).push(s.last())
    }
}

/// The entries of `s` in rank order; entries of equal rank keep the order
/// they had in `s`.
pub open spec fn stable_sort<T, R: Rank<T>>(s: Seq<T>) -> Seq<T>
    decreases s.len(),
{
    if s.len() == 0 {
        s
    } else {
        insert_sorted::<T, R>(stable_sort::<T, R>(s.drop_last()), s.last())
    }
}

/// `insert_sorted` puts `x` at the one position `p` where everything before
/// may stand before `x` and nothing from there on may.
pub proof fn lemma_insert_sorted_at<T, R: Rank<T>>(s: Seq<T>, x: T) -> (p: int)
    ensures
        0 <= p <= s.len(),
        insert_sorted::<T, R>(s, x) == s.insert(p, x),
        p > 0 ==> in_order(R::rank(&s[p - 1]), R::rank(&x)),
        forall|j: int| p <= j < s.len() ==> !in_order(#[trigger] R::rank(&s[j]), R::rank(&x)),
    decreases s.len(),
{
    if s.len() == 0 {
        assert(seq![x] =~= s.insert(0, x));
        0
    } else if in_order(R::rank(&s.last()), R::rank(&x)) {
        assert(s.push(x) =~= s.insert(s.len() as int, x));
        s.len() as int
    } else {
        let rest = s.drop_last();
        let p = lemma_insert_sorted_at::<T, R>(rest, x);
        assert(rest.insert(p, x).push(s.last()) =~= s.insert(p, x));
        assert forall|j: int| p <= j < s.len() implies !in_order(
            #[trigger] R::rank(&s[j]),
            R::rank(&x),
        ) by {
            if j < rest.len() {
                assert(rest[j] == s[j]);
            }
        }
        if p > 0 {
            assert(rest[p - 1] == s[p - 1]);
        }
        p
    }
}

/// Putting an entry at position `p` under the conditions of
/// `lemma_insert_sorted_at` is `insert_sorted`.
pub proof fn lemma_insert_position<T, R: Rank<T>>(s: Seq<T>, x: T, p: int)
    requires
        0 <= p <= s.len(),
        p > 0 ==> in_order(R::rank(&s[p - 1]), R::rank(&x)),
        forall|j: int| p <= j < s.len() ==> !in_order(#[trigger] R::rank(&s[j]), R::rank(&x)),
        ordered::<T, R>(s),
    ensures
        insert_sorted::<T, R>(s, x) == s.insert(p, x),
{
    let q = lemma_insert_sorted_at::<T, R>(s, x);
    if q < p {
        assert(!in_order(R::rank(&s[q]), R::rank(&x)));
        assert(in_order(R::rank(&s[q]), R::rank(&s[p - 1])));
    } else if p < q {
        assert(!in_order(R::rank(&s[q - 1]), R::rank(&x)));
    }
}

/// Putting an entry into an ordered sequence leaves it ordered.
pub proof fn lemma_insert_sorted_ordered<T, R: Rank<T>>(s: Seq<T>, x: T)
    requires
        ordered::<T, R>(s),
    ensures
        ordered::<T, R>(insert_sorted::<T, R>(s, x)),
{
    let p = lemma_insert_sorted_at::<T, R>(s, x);
    let out = s.insert(p, x);
    assert forall|i: int, j: int| 0 <= i <= j < out.len() implies in_order(
        #[trigger] R::rank(&out[i]),
        #[trigger] R::rank(&out[j]),
    ) by {
        let xi = if i < p {
            i
        } else {
            i - 1
        };
        let xj = if j < p {
            j
        } else {
            j - 1
        };
        if i == p {
            if j > p {
                assert(out[j] == s[j - 1]);
                assert(!in_order(R::rank(&s[j - 1]), R::rank(&x)));
            }
        } else if j == p {
            assert(out[i] == s[i]);
            assert(in_order(R::rank(&s[i]), R::rank(&s[p - 1])));
        } else {
            assert(out[i] == s[xi] && out[j] == s[xj]);
            assert(in_order(R::rank(&s[xi]), R::rank(&s[xj])));
        }
    }
}

/// The sorted sequence is ordered, and holds the entries of the input, each
/// as often as the input does.
#[verifier::rlimit(40)]
pub proof fn lemma_stable_sort<T, R: Rank<T>>(s: Seq<T>)
    ensures
        ordered::<T, R>(stable_sort::<T, R>(s)),
        stable_sort::<T, R>(s).to_multiset() == s.to_multiset(),
        stable_sort::<T, R>(s).len() == s.len(),
        forall|x: T| stable_sort::<T, R>(s).contains(x) <==> s.contains(x),
    decreases s.len(),
{
    broadcast use vstd::seq_lib::to_multiset_contains;

    let out = stable_sort::<T, R>(s);
    if s.len() > 0 {
        let rest = s.drop_last();
        let sorted_rest = stable_sort::<T, R>(rest);
        lemma_stable_sort::<T, R>(rest);
        lemma_insert_sorted_ordered::<T, R>(sorted_rest, s.last());
        let p = lemma_insert_sorted_at::<T, R>(sorted_rest, s.last());
        vstd::seq_lib::to_multiset_insert(sorted_rest, p, s.last());
        vstd::seq_lib::to_multiset_build(rest, s.last());
        assert(rest.push(s.last()) =~= s);
    }
    vstd::seq_lib::to_multiset_len(out);
    vstd::seq_lib::to_multiset_len(s);
    assert forall|x: T| out.contains(x) <==> s.contains(x) by {
        assert(out.to_multiset().count(x) == s.to_multiset().count(x));
    }
}

/// What holds of every entry of the input holds of every entry of the sorted
/// sequence.
pub proof fn lemma_stable_sort_keeps<T, R: Rank<T>>(s: Seq<T>, holds: spec_fn(T) -> bool)
    requires
        forall|i: int| 0 <= i < s.len() ==> holds(#[trigger] s[i]),
    ensures
        forall|i: int|
            0 <= i < stable_sort::<T, R>(s).len() ==> holds(#[trigger] stable_sort::<T, R>(s)[i]),
{
    lemma_stable_sort::<T, R>(s);
    let out = stable_sort::<T, R>(s);
    assert forall|i: int| 0 <= i < out.len() implies holds(#[trigger] out[i]) by {
        assert(out.contains(out[i]));
        assert(s.contains(out[i]));
        let j = choose|j: int| 0 <= j < s.len() && s[j] == out[i];
        assert(holds(s[j]));
    }
}

/// Sorting an ordered sequence changes nothing.
pub proof fn lemma_stable_sort_of_ordered<T, R: Rank<T>>(s: Seq<T>)
    requires
        ordered::<T, R>(s),
    ensures
        stable_sort::<T, R>(s) == s,
    decreases s.len(),
{
    if s.len() > 0 {
        let rest = s.drop_last();
        assert(ordered::<T, R>(rest)) by {
            assert forall|i: int, j: int| 0 <= i <= j < rest.len() implies in_order(
                #[trigger] R::rank(&rest[i]),
                #[trigger] R::rank(&rest[j]),
            ) by {
                assert(rest[i] == s[i] && rest[j] == s[j]);
            }
        }
        lemma_stable_sort_of_ordered::<T, R>(rest);
        if rest.len() > 0 {
            assert(rest.last() == s[s.len() - 2]);
            assert(in_order(R::rank(&s[s.len() - 2]), R::rank(&s[s.len() - 1])));
        }
        assert(rest.push(s.last()) =~= s);
    }
}

/// A sequence ordered by time has ascending times.
pub proof fn lemma_ordered_by_time<T: TimeGetter>(s: Seq<T>)
    ensures
        ordered::<T, TimeRank>(s) <==> ascending(keys_of::<T, ByTime>(s)),
{
    let keys = keys_of::<T, ByTime>(s);
    if ordered::<T, TimeRank>(s) {
        assert forall|i: int, j: int| 0 <= i <= j < keys.len() implies keys[i] <= keys[j] by {
            assert(in_order(TimeRank::rank(&s[i]), TimeRank::rank(&s[j])));
        }
    }
    if ascending(keys) {
        assert forall|i: int, j: int| 0 <= i <= j < s.len() implies in_order(
            #[trigger] TimeRank::rank(&s[i]),
            #[trigger] TimeRank::rank(&s[j]),
        ) by {
            assert(keys[i] <= keys[j]);
        }
    }
}

/// A sequence ordered by distance and time has ascending distances.
pub proof fn lemma_ordered_by_distance<T: TimeGetter + DistanceGetter>(s: Seq<T>)
    requires
        ordered::<T, DistanceTimeRank>(s),
    ensures
        ascending(keys_of::<T, ByDistance>(s)),
{
    let keys = keys_of::<T, ByDistance>(s);
    assert forall|i: int, j: int| 0 <= i <= j < keys.len() implies keys[i] <= keys[j] by {
        assert(in_order(DistanceTimeRank::rank(&s[i]), DistanceTimeRank::rank(&s[j])));
    }
}

/// Sorts the entries of `v` by rank; entries of equal rank keep their order.
#[verifier::rlimit(40)]
pub fn sort_by_rank<T: Copy, R: Rank<T>>(v: &Vec<T>) -> (out: Vec<T>)
    ensures
        out@ == stable_sort::<T, R>(v@),
        out@.len() == v@.len(),
        ordered::<T, R>(out@),
        out@.to_multiset() == v@.to_multiset(),
        ordered::<T, R>(v@) ==> out@ == v@,
{
    let mut out: Vec<T> = Vec::new();
    let n: usize = v.len();
    let mut i: usize = 0;
    assert(v@.subrange(0, 0) =~= Seq::<T>::empty());
    while i < n
        invariant
            0 <= i <= n,
            n == v.len(),
            out@ == stable_sort::<T, R>(v@.subrange(0, i as int)),
            out@.len() == i,
        decreases n - i,
    {
        let x: T = v[i];
        let xr: (i64, i64) = R::read(&x);
        let mut j: usize = out.len();
        proof {
            lemma_stable_sort::<T, R>(v@.subrange(0, i as int));
        }
        while j > 0 && !rank_in_order(R::read(&out[j - 1]), xr)
            invariant
                0 <= j <= out.len(),
                xr.0 == R::rank(&x).0,
                xr.1 == R::rank(&x).1,
                forall|k: int|
                    j <= k < out.len() ==> !in_order(#[trigger] R::rank(&out@[k]), R::rank(&x)),
            decreases j,
        {
            j = j - 1;
        }
        proof {
            let prefix = v@.subrange(0, i as int);
            let next = v@.subrange(0, i + 1);
            assert(next.drop_last() =~= prefix);
            assert(next.last() == x);
            lemma_insert_position::<T, R>(out@, x, j as int);
            lemma_stable_sort::<T, R>(next);
        }
        out.insert(j, x);
        i = i + 1;
    }
    proof {
        assert(v@.subrange(0, n as int) =~= v@);
        lemma_stable_sort::<T, R>(v@);
        if ordered::<T, R>(v@) {
            lemma_stable_sort_of_ordered::<T, R>(v@);
        }
    }
    out
}

/// `in_order` in executable code.
fn rank_in_order(a: (i64, i64), b: (i64, i64)) -> (r: bool)
    ensures
        r == in_order((a.0 as int, a.1 as int), (b.0 as int, b.1 as int)),
{
    a.0 < b.0 || (a.0 == b.0 && a.1 <= b.1)
}

} // verus!
