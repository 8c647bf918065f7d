use vstd::prelude::*;

verus! {

/// Timestamps strictly increase along `s`.
pub open spec fn strictly_sorted(s: Seq<(u64, u64)>) -> bool {
    forall|i: int, j: int| 0 <= i < j < s.len() ==> #[trigger] s[i].0 < #[trigger] s[j].0
}

/// Some point of `s` has timestamp `t`.
pub open spec fn has_ts(s: Seq<(u64, u64)>, t: u64) -> bool {
    exists|i: int| 0 <= i < s.len() && #[trigger] s[i].0 == t
}

/// The value of the last point of `s` with timestamp `t` (0 where there is none).
pub open spec fn last_value(s: Seq<(u64, u64)>, t: u64) -> u64
    decreases s.len(),
{
    if s.len() == 0 {
        0
    } else if s.last().0 == t {
        s.last().1
    } else {
        last_value(s.drop_last(), t)
    }
}

/// `r` lists the timestamps of `s` once each, in ascending order, each with the value of the
/// last point of `s` that carries it.
pub open spec fn is_merged(s: Seq<(u64, u64)>, r: Seq<(u64, u64)>) -> bool {
    &&& strictly_sorted(r)
    &&& forall|t: u64| #[trigger] has_ts(r, t) <==> has_ts(s, t)
    &&& forall|i: int| 0 <= i < r.len() ==> #[trigger] r[i].1 == last_value(s, r[i].0)
}

/// The points of `s` whose timestamp lies in `[start, end]`, in their order.
pub open spec fn in_range(s: Seq<(u64, u64)>, start: u64, end: u64) -> Seq<(u64, u64)>
    decreases s.len(),
{
    if s.len() == 0 {
        s
    } else {
        let rest = in_range(s.drop_last(), start, end);
        if start <= s.last().0 <= end {
            rest.push(s.last())
        } else {
            rest
        }
    }
}

/// Sorts points by timestamp and keeps, for each timestamp, the value written last.
pub fn sort_dedup_last(points: &Vec<(u64, u64)>) -> (r: Vec<(u64, u64)>)
    ensures
        is_merged(points@, r@),
        r@.len() <= points@.len(),
{
    let mut r: Vec<(u64, u64)> = Vec::new();
    let mut i: usize = 0;
    while i < points.len()
        invariant
            i <= points.len(),
            is_merged(points@.take(i as int), r@),
            r@.len() <= i,
        decreases points.len() - i,
    {
        let p = points[i];
        let ghost s = points@.take(i as int);
        let ghost s2 = points@.take(i as int + 1);
        assert(s2 =~= s.push(p));
        assert(s2.drop_last() =~= s);
        let mut k: usize = 0;
        while k < r.len() && r[k].0 < p.0
            invariant
                k <= r.len(),
                forall|j: int| 0 <= j < k ==> #[trigger] r@[j].0 < p.0,
            decreases r.len() - k,
        {
            k = k + 1;
        }
        let ghost old_r = r@;
        if k < r.len() && r[k].0 == p.0 {
            r.set(k, p);
            proof {
                assert forall|t: u64| #[trigger] has_ts(r@, t) <==> has_ts(s2, t) by {
                    if has_ts(r@, t) {
                        let j = choose|j: int| 0 <= j < r@.len() && #[trigger] r@[j].0 == t;
                        if j == k {
                            assert(s2[s.len() as int].0 == t);
                        } else {
                            assert(old_r[j].0 == t);
                            assert(has_ts(old_r, t));
                            assert(has_ts(s, t));
                            let m = choose|m: int| 0 <= m < s.len() && #[trigger] s[m].0 == t;
                            assert(s2[m].0 == t);
                        }
                    }
                    if has_ts(s2, t) {
                        let m = choose|m: int| 0 <= m < s2.len() && #[trigger] s2[m].0 == t;
                        if m == s.len() {
                            assert(r@[k as int].0 == t);
                        } else {
                            assert(s[m].0 == t);
                            assert(has_ts(old_r, t));
                            let j = choose|j: int| 0 <= j < old_r.len() && #[trigger] old_r[j].0 == t;
                            assert(r@[j].0 == t);
                        }
                    }
                }
            }
        } else {
            r.insert(k, p);
            proof {
                assert forall|a: int, b: int| 0 <= a < b < r@.len() implies #[trigger] r@[a].0
                    < #[trigger] r@[b].0 by {
                    if b < k {
                    } else if b == k {
                    } else if a < k {
                        assert(old_r[a].0 < p.0);
                        assert(p.0 <= old_r[k as int].0);
                        assert(old_r[k as int].0 <= old_r[b - 1].0);
                    } else if a == k {
                        assert(p.0 <= old_r[k as int].0);
                        assert(old_r[k as int].0 <= old_r[b - 1].0);
                    } else {
                        assert(old_r[a - 1].0 < old_r[b - 1].0);
                    }
                }
                assert forall|t: u64| #[trigger] has_ts(r@, t) <==> has_ts(s2, t) by {
                    if has_ts(r@, t) {
                        let j = choose|j: int| 0 <= j < r@.len() && #[trigger] r@[j].0 == t;
                        if j == k {
                            assert(s2[s.len() as int].0 == t);
                        } else {
                            let jj = if j < k {
                                j
                            } else {
                                j - 1
                            };
                            assert(old_r[jj].0 == t);
                            assert(has_ts(old_r, t));
                            assert(has_ts(s, t));
                            let m = choose|m: int| 0 <= m < s.len() && #[trigger] s[m].0 == t;
                            assert(s2[m].0 == t);
                        }
                    }
                    if has_ts(s2, t) {
                        let m = choose|m: int| 0 <= m < s2.len() && #[trigger] s2[m].0 == t;
                        if m == s.len() {
                            assert(r@[k as int].0 == t);
                        } else {
                            assert(s[m].0 == t);
                            assert(has_ts(old_r, t));
                            let j = choose|j: int| 0 <= j < old_r.len() && #[trigger] old_r[j].0 == t;
                            if j < k {
                                assert(r@[j].0 == t);
                            } else {
                                assert(r@[j + 1].0 == t);
                            }
                        }
                    }
                }
                assert forall|j: int| 0 <= j < r@.len() implies #[trigger] r@[j].1 == last_value(
                    s2,
                    r@[j].0,
                ) by {
                    if j < k {
                        assert(r@[j] == old_r[j]);
                    } else if j > k {
                        assert(r@[j] == old_r[j - 1]);
                    }
                }
            }
        }
        i = i + 1;
    }
    assert(points@.take(points.len() as int) =~= points@);
    r
}

/// Keeps the points whose timestamp lies in `[start, end]`.
pub fn filter_range(points: &Vec<(u64, u64)>, start: u64, end: u64) -> (r: Vec<(u64, u64)>)
    ensures
        r@ == in_range(points@, start, end),
{
    let mut r: Vec<(u64, u64)> = Vec::new();
    let mut i: usize = 0;
    while i < points.len()
        invariant
            i <= points.len(),
            r@ == in_range(points@.take(i as int), start, end),
        decreases points.len() - i,
    {
        let p = points[i];
        assert(points@.take(i as int + 1).drop_last() =~= points@.take(i as int));
        if start <= p.0 && p.0 <= end {
            r.push(p);
        }
        i = i + 1;
    }
    assert(points@.take(points.len() as int) =~= points@);
    r
}


/// Points in range come from some points.
pub proof fn lemma_in_range_nonempty(s: Seq<(u64, u64)>, start: u64, end: u64)
    ensures
        in_range(s, start, end).len() <= s.len(),
    decreases s.len(),
{
    if s.len() > 0 {
        lemma_in_range_nonempty(s.drop_last(), start, end);
    }
}

/// `s` with `p` placed after every point of `s` whose timestamp is at most `p`'s, as one step
/// of a stable insertion sort.
pub open spec fn insert_by_ts(s: Seq<(u64, u64)>, p: (u64, u64)) -> Seq<(u64, u64)>
    decreases s.len(),
{
    if s.len() == 0 {
        seq![p]
    } else if s.last().0 <= p.0 {
        s.push(p)
    } else {
        insert_by_ts(s.drop_last(), p).push(s.last())
    }
}

/// `s` sorted by timestamp, points with equal timestamps kept in their order.
pub open spec fn sort_by_ts(s: Seq<(u64, u64)>) -> Seq<(u64, u64)>
    decreases s.len(),
{
    if s.len() == 0 {
        s
    } else {
        insert_by_ts(sort_by_ts(s.drop_last()), s.last())
    }
}

proof fn lemma_insert_by_ts_at(s: Seq<(u64, u64)>, p: (u64, u64), k: int)
    requires
        0 <= k <= s.len(),
        k > 0 ==> s[k - 1].0 <= p.0,
        forall|j: int| k <= j < s.len() ==> (#[trigger] s[j]).0 > p.0,
    ensures
        insert_by_ts(s, p) == s.insert(k, p),
    decreases s.len(),
{
    if s.len() == 0 {
        assert(s.insert(k, p) =~= seq![p]);
    } else if s.last().0 <= p.0 {
        assert(k == s.len());
        assert(s.insert(k, p) =~= s.push(p));
    } else {
        assert(k < s.len());
        assert forall|j: int| k <= j < s.len() - 1 implies (#[trigger] s.drop_last()[j]).0 > p.0 by {
            assert(s.drop_last()[j] == s[j]);
        }
        if k > 0 {
            assert(s.drop_last()[k - 1] == s[k - 1]);
        }
        lemma_insert_by_ts_at(s.drop_last(), p, k);
        assert(s.drop_last().insert(k, p).push(s.last()) =~= s.insert(k, p));
    }
}

proof fn lemma_insert_by_ts_len(s: Seq<(u64, u64)>, p: (u64, u64))
    ensures
        insert_by_ts(s, p).len() == s.len() + 1,
    decreases s.len(),
{
    if s.len() > 0 && s.last().0 > p.0 {
        lemma_insert_by_ts_len(s.drop_last(), p);
    }
}

pub proof fn lemma_sort_by_ts_len(s: Seq<(u64, u64)>)
    ensures
        sort_by_ts(s).len() == s.len(),
    decreases s.len(),
{
    if s.len() > 0 {
        lemma_sort_by_ts_len(s.drop_last());
        lemma_insert_by_ts_len(sort_by_ts(s.drop_last()), s.last());
    }
}

/// A list already in ascending timestamp order is its own sort.
pub proof fn lemma_sorted_sort_by_ts(s: Seq<(u64, u64)>)
    requires
        strictly_sorted(s),
    ensures
        sort_by_ts(s) == s,
    decreases s.len(),
{
    if s.len() > 0 {
        let d = s.drop_last();
        assert forall|i: int, j: int| 0 <= i < j < d.len() implies #[trigger] d[i].0
            < #[trigger] d[j].0 by {
            assert(d[i] == s[i] && d[j] == s[j]);
        }
        lemma_sorted_sort_by_ts(d);
        if d.len() > 0 {
            assert(d.last() == s[s.len() - 2]);
        }
        assert(d.push(s.last()) =~= s);
    }
}

/// Sorts points by timestamp; points with equal timestamps keep their order.
pub fn stable_sort_by_ts(points: &Vec<(u64, u64)>) -> (r: Vec<(u64, u64)>)
    ensures
        r@ == sort_by_ts(points@),
{
    let mut r: Vec<(u64, u64)> = Vec::new();
    let mut i: usize = 0;
    while i < points.len()
        invariant
            i <= points@.len(),
            r@ == sort_by_ts(points@.take(i as int)),
        decreases points.len() - i,
    {
        let p = points[i];
        assert(points@.take(i as int + 1).drop_last() =~= points@.take(i as int));
        assert(points@.take(i as int + 1).last() == p);
        let mut k: usize = r.len();
        while k > 0 && r[k - 1].0 > p.0
            invariant
                k <= r@.len(),
                forall|j: int| k <= j < r@.len() ==> (#[trigger] r@[j]).0 > p.0,
            decreases k,
        {
            k = k - 1;
        }
        proof {
            lemma_insert_by_ts_at(r@, p, k as int);
        }
        r.insert(k, p);
        i = i + 1;
    }
    assert(points@.take(points@.len() as int) =~= points@);
    r
}

} // verus!
