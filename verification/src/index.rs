//! The temporal and spatial index: one binary search, shared by every table
//! whose entries expose a time or a distance.

use vstd::prelude::*;

verus! {

/// What `find_pos` returns for an empty table.
pub const NOT_FOUND: usize = usize::MAX;

/// The mode that selects the entry of greatest key at most the query, the
/// first of its run.
pub const AT_OR_BEFORE: i32 = 0;

/// The mode that selects the first entry whose key is at least the query.
pub const AT_OR_AFTER: i32 = 1;

/// The mode that selects the last entry whose key is below the query.
pub const BEFORE: i32 = 2;

/// The mode that selects the first entry whose key is above the query.
pub const AFTER: i32 = 3;

/// The mode that selects the entry in force at the query: the last entry
/// whose key is at most the query.
pub const IN_FORCE: i32 = 4;

/// An entry that exposes a time.
pub trait TimeGetter {
    /// The time the entry stands at.
    spec fn time_of(&self) -> int;

    fn get_time(&self) -> (t: i64)
        ensures
            t == self.time_of(),
    ;
}

/// An entry that exposes a distance.
pub trait DistanceGetter {
    /// The distance the entry stands at.
    spec fn distance_of(&self) -> int;

    fn get_distance(&self) -> (d: i64)
        ensures
            d == self.distance_of(),
    ;
}

/// A way to read the search key of an entry.
pub trait KeyOf<T> {
    spec fn key(item: &T) -> int;

    fn read(item: &T) -> (k: i64)
        ensures
            k == Self::key(item),
    ;
}

/// Selects the time of an entry as its key.
pub struct ByTime;

/// Selects the distance of an entry as its key.
pub struct ByDistance;

impl<T: TimeGetter> KeyOf<T> for ByTime {
    open spec fn key(item: &T) -> int {
        item.time_of()
    }

    fn read(item: &T) -> (k: i64) {
        item.get_time()
    }
}

impl<T: DistanceGetter> KeyOf<T> for ByDistance {
    open spec fn key(item: &T) -> int {
        item.distance_of()
    }

    fn read(item: &T) -> (k: i64) {
        item.get_distance()
    }
}

/// The keys of a table, in table order.
pub open spec fn keys_of<T, K: KeyOf<T>>(table: Seq<T>) -> Seq<int> {
    Seq::new(table.len(), |i: int| K::key(&table[i]))
}

/// Keys never decrease from one entry to the next.
pub open spec fn ascending(keys: Seq<int>) -> bool {
    forall|i: int, j: int| 0 <= i <= j < keys.len() ==> keys[i] <= keys[j]
}

/// `r` is the least index whose key is at least `q`.
pub open spec fn is_first_at_least(keys: Seq<int>, q: int, r: int) -> bool {
    &&& 0 <= r < keys.len()
    &&& keys[r] >= q
    &&& forall|j: int| 0 <= j < r ==> keys[j] < q
}

/// `r` is the least index whose key is greater than `q`.
pub open spec fn is_first_above(keys: Seq<int>, q: int, r: int) -> bool {
    &&& 0 <= r < keys.len()
    &&& keys[r] > q
    &&& forall|j: int| 0 <= j < r ==> keys[j] <= q
}

/// `r` is the greatest index whose key is less than `q`.
pub open spec fn is_last_below(keys: Seq<int>, q: int, r: int) -> bool {
    &&& 0 <= r < keys.len()
    &&& keys[r] < q
    &&& forall|j: int| r < j < keys.len() ==> keys[j] >= q
}

/// `r` is the greatest index whose key is at most `q`.
pub open spec fn is_last_at_most(keys: Seq<int>, q: int, r: int) -> bool {
    &&& 0 <= r < keys.len()
    &&& keys[r] <= q
    &&& forall|j: int| r < j < keys.len() ==> keys[j] > q
}

/// `r` is the first index of the run that holds the greatest key at most `q`.
pub open spec fn is_first_of_greatest_at_most(keys: Seq<int>, q: int, r: int) -> bool {
    &&& 0 <= r < keys.len()
    &&& keys[r] <= q
    &&& forall|j: int| 0 <= j < keys.len() && keys[j] <= q ==> keys[j] <= keys[r]
    &&& forall|j: int| 0 <= j < r ==> keys[j] < keys[r]
}

/// What the index returns on a non-empty ascending table, by mode:
///
/// * `AT_OR_BEFORE` (0): the entry of greatest key at most `q`, the first of
///   its run; the first entry if every key is above `q`;
/// * `AT_OR_AFTER` (1): the first entry whose key is at least `q`; the last
///   entry if there is none;
/// * `BEFORE` (2): the last entry whose key is below `q`; the first entry if
///   there is none;
/// * `AFTER` (3): the first entry whose key is above `q`; the last entry if
///   there is none;
/// * `IN_FORCE` (4) and any other mode: the entry in force at `q`, that is
///   the last one whose key is at most `q`; the first entry if every key is
///   above `q`.
pub open spec fn selects(keys: Seq<int>, q: int, mode: int, r: int) -> bool {
    if mode == AT_OR_BEFORE {
        if keys[0] <= q {
            is_first_of_greatest_at_most(keys, q, r)
        } else {
            r == 0
        }
    } else if mode == AT_OR_AFTER {
        if keys.last() >= q {
            is_first_at_least(keys, q, r)
        } else {
            r == keys.len() - 1
        }
    } else if mode == BEFORE {
        if keys[0] < q {
            is_last_below(keys, q, r)
        } else {
            r == 0
        }
    } else if mode == AFTER {
        if keys.last() > q {
            is_first_above(keys, q, r)
        } else {
            r == keys.len() - 1
        }
    } else {
        if keys[0] <= q {
            is_last_at_most(keys, q, r)
        } else {
            r == 0
        }
    }
}

/// The index of the entry in force at `q`: the last entry whose key is at
/// most `q`, or 0 if there is none.
pub open spec fn in_force(keys: Seq<int>, q: int) -> int
    decreases keys.len(),
{
    if keys.len() == 0 {
        0
    } else if keys.last() <= q {
        keys.len() - 1
    } else {
        in_force(keys.drop_last(), q)
    }
}

/// `in_force` is an index of the table, and on an ascending table it is the
/// entry that the mode `IN_FORCE` of the index selects.
pub proof fn lemma_in_force(keys: Seq<int>, q: int)
    requires
        keys.len() > 0,
    ensures
        0 <= in_force(keys, q) < keys.len(),
        ascending(keys) ==> selects(keys, q, IN_FORCE as int, in_force(keys, q)),
        ascending(keys) ==> forall|r: int| selects(keys, q, IN_FORCE as int, r) ==> r == in_force(keys, q),
    decreases keys.len(),
{
    if keys.last() <= q {
    } else if keys.len() == 1 {
        assert(keys.drop_last().len() == 0);
    } else {
        let rest = keys.drop_last();
        lemma_in_force(rest, q);
        if ascending(keys) {
            assert(ascending(rest)) by {
                assert forall|i: int, j: int| 0 <= i <= j < rest.len() implies rest[i] <= rest[j] by {
                    assert(rest[i] == keys[i] && rest[j] == keys[j]);
                }
            }
            assert(rest[0] == keys[0]);
            let r = in_force(rest, q);
            assert(selects(rest, q, IN_FORCE as int, r));
            if keys[0] <= q {
                assert(rest[r] == keys[r]);
                assert forall|j: int| r < j < keys.len() implies keys[j] > q by {
                    if j < rest.len() {
                        assert(rest[j] == keys[j]);
                    }
                }
            }
        }
    }
    if ascending(keys) {
        assert forall|r: int| selects(keys, q, IN_FORCE as int, r) implies r == in_force(keys, q) by {
            let f = in_force(keys, q);
            if keys[0] <= q {
                if r < f {
                    assert(keys[f] > q);
                } else if f < r {
                    assert(keys[r] > q);
                }
            }
        }
    }
}

/// The first index of the run of equal keys that index `p` lies in.
pub open spec fn first_of_run(keys: Seq<int>, p: int) -> int
    decreases p,
{
    if p > 0 && keys[p - 1] == keys[p] {
        first_of_run(keys, p - 1)
    } else {
        p
    }
}

/// The index of the first entry that holds the key in force at `q`, or 0 if
/// every key is above `q`.
pub open spec fn in_force_first(keys: Seq<int>, q: int) -> int {
    first_of_run(keys, in_force(keys, q))
}

/// `first_of_run` is an index at or before `p` that holds the key of `p`, and
/// the entry before it, if any, holds another key.
pub proof fn lemma_first_of_run(keys: Seq<int>, p: int)
    requires
        0 <= p < keys.len(),
    ensures
        0 <= first_of_run(keys, p) <= p,
        keys[first_of_run(keys, p)] == keys[p],
        first_of_run(keys, p) > 0 ==> keys[first_of_run(keys, p) - 1] != keys[p],
    decreases p,
{
    if p > 0 && keys[p - 1] == keys[p] {
        lemma_first_of_run(keys, p - 1);
    }
}

/// `in_force_first` is an index of the table, and on an ascending table it is
/// the entry that the mode `AT_OR_BEFORE` of the index selects.
pub proof fn lemma_in_force_first(keys: Seq<int>, q: int)
    requires
        keys.len() > 0,
    ensures
        0 <= in_force_first(keys, q) < keys.len(),
        ascending(keys) ==> selects(keys, q, AT_OR_BEFORE as int, in_force_first(keys, q)),
        ascending(keys) ==> forall|r: int|
            selects(keys, q, AT_OR_BEFORE as int, r) ==> r == in_force_first(keys, q),
{
    lemma_in_force(keys, q);
    let p = in_force(keys, q);
    lemma_first_of_run(keys, p);
    let f = in_force_first(keys, q);
    if ascending(keys) {
        assert(selects(keys, q, IN_FORCE as int, p));
        if keys[0] <= q {
            assert forall|j: int| 0 <= j < keys.len() && keys[j] <= q implies keys[j] <= keys[f] by {
                if j > p {
                    assert(keys[j] > q);
                }
            }
            assert forall|j: int| 0 <= j < f implies keys[j] < keys[f] by {
                assert(keys[j] <= keys[f - 1]);
                assert(keys[f - 1] <= keys[f]);
            }
            assert forall|r: int| selects(keys, q, AT_OR_BEFORE as int, r) implies r == f by {
                if r < f {
                    assert(keys[r] < keys[f]);
                    assert(keys[f] <= keys[r]);
                } else if f < r {
                    assert(keys[f] < keys[r]);
                    assert(keys[r] <= keys[f]);
                }
            }
        }
    }
}

/// The number of entries whose key is below `q` (with `strict` false) or at
/// most `q` (with `strict` true), by binary search.
fn partition_point<T, K: KeyOf<T>>(input: &Vec<T>, q: i64, strict: bool) -> (r: usize)
    ensures
        r <= input.len(),
        ascending(keys_of::<T, K>(input@)) ==> forall|j: int|
            0 <= j < input.len() ==> (j < r <==> if strict {
                #[trigger] keys_of::<T, K>(input@)[j] <= q
            } else {
                keys_of::<T, K>(input@)[j] < q
            }),
{
    let ghost keys = keys_of::<T, K>(input@);
    let mut lo: usize = 0;
    let mut hi: usize = input.len();
    while lo < hi
        invariant
            lo <= hi <= input.len(),
            keys == keys_of::<T, K>(input@),
            ascending(keys) ==> forall|j: int|
                0 <= j < lo ==> if strict {
                    #[trigger] keys[j] <= q
                } else {
                    keys[j] < q
                },
            ascending(keys) ==> forall|j: int|
                hi <= j < input.len() ==> !(if strict {
                    #[trigger] keys[j] <= q
                } else {
                    keys[j] < q
                }),
        decreases hi - lo,
    {
        let mid: usize = lo + (hi - lo) / 2;
        let k: i64 = K::read(&input[mid]);
        assert(k == keys[mid as int]);
        let before: bool = if strict {
            k <= q
        } else {
            k < q
        };
        if before {
            lo = mid + 1;
        } else {
            hi = mid;
        }
    }
    lo
}

/// Finds an entry of `input` by its key, under one of the boundary modes that
/// `selects` describes. An empty table gives `NOT_FOUND`.
pub fn find_pos<T, K: KeyOf<T>>(input: &Vec<T>, q: i64, mode: i32) -> (r: usize)
    ensures
        input.len() == 0 ==> r == NOT_FOUND,
        input.len() > 0 ==> r < input.len(),
        input.len() > 0 && ascending(keys_of::<T, K>(input@)) ==> selects(
            keys_of::<T, K>(input@),
            q as int,
            mode as int,
            r as int,
        ),
{
    let n: usize = input.len();
    if n == 0 {
        return NOT_FOUND;
    }
    let ghost keys = keys_of::<T, K>(input@);
    if mode == AT_OR_AFTER {
        let p: usize = partition_point::<T, K>(input, q, false);
        if p < n {
            p
        } else {
            n - 1
        }
    } else if mode == BEFORE {
        let p: usize = partition_point::<T, K>(input, q, false);
        if p > 0 {
            p - 1
        } else {
            0
        }
    } else if mode == AFTER {
        let p: usize = partition_point::<T, K>(input, q, true);
        if p < n {
            p
        } else {
            n - 1
        }
    } else {
        let p: usize = partition_point::<T, K>(input, q, true);
        if p == 0 {
            0
        } else if mode == AT_OR_BEFORE {
            let k: i64 = K::read(&input[p - 1]);
            let f: usize = partition_point::<T, K>(input, k, false);
            proof {
                if ascending(keys) {
                    assert(keys[p - 1] == k);
                    assert(f <= p - 1);
                    assert(keys[f as int] >= k);
                    assert(keys[f as int] <= keys[p - 1]);
                }
            }
            if f < n {
                f
            } else {
                n - 1
            }
        } else {
            p - 1
        }
    }
}

/// Whether the keys of `input` never decrease from one entry to the next.
pub fn check_ascending<T, K: KeyOf<T>>(input: &Vec<T>) -> (ok: bool)
    ensures
        ok == ascending(keys_of::<T, K>(input@)),
{
    let ghost keys = keys_of::<T, K>(input@);
    let n: usize = input.len();
    if n == 0 {
        return true;
    }
    let mut k: usize = 1;
    while k < n
        invariant
            1 <= k <= n,
            n == input.len(),
            keys == keys_of::<T, K>(input@),
            forall|i: int, j: int| 0 <= i <= j < k ==> keys[i] <= keys[j],
        decreases n - k,
    {
        let a: i64 = K::read(&input[k - 1]);
        let b: i64 = K::read(&input[k]);
        assert(a == keys[k - 1] && b == keys[k as int]);
        if a > b {
            return false;
        }
        assert forall|i: int, j: int| 0 <= i <= j < k + 1 implies keys[i] <= keys[j] by {
            if j == k && i < k {
                assert(keys[i] <= keys[k - 1]);
            }
        }
        k = k + 1;
    }
    true
}

} // verus!
