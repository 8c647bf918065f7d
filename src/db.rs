use vstd::prelude::*;
use crate::points::{filter_range, has_ts, in_range, is_merged, last_value, sort_dedup_last};
use crate::sstable::{field_series, group_fields, key_clone, key_view, some_point_has};
use crate::types::{DataPoint, QueryFilter, SeriesKey};
use crate::sstable::SSTable;
use crate::error::Error;

verus! {

/// One list of points of one field of one series, as the read path collects them.
pub type FieldPoints = (SeriesKey, String, Vec<(u64, u64)>);

/// Everything that `parts` holds for field `name` of the series `key`, in order.
pub open spec fn collected(parts: Seq<FieldPoints>, key: SeriesKey, name: Seq<char>) -> Seq<
    (u64, u64),
>
    decreases parts.len(),
{
    if parts.len() == 0 {
        seq![]
    } else {
        let rest = collected(parts.drop_last(), key, name);
        let last = parts.last();
        if last.0.same_as(&key) && last.1@ == name {
            rest + last.2@
        } else {
            rest
        }
    }
}

proof fn lemma_collected_none(parts: Seq<FieldPoints>, key: SeriesKey, name: Seq<char>)
    requires
        forall|p: int|
            0 <= p < parts.len() ==> !((#[trigger] parts[p]).0.same_as(&key) && parts[p].1@ == name),
    ensures
        collected(parts, key, name) == Seq::<(u64, u64)>::empty(),
    decreases parts.len(),
{
    if parts.len() > 0 {
        assert forall|p: int| 0 <= p < parts.len() - 1 implies !((
        #[trigger] parts.drop_last()[p]).0.same_as(&key) && parts.drop_last()[p].1@ == name) by {
            assert(parts.drop_last()[p] == parts[p]);
        }
        lemma_collected_none(parts.drop_last(), key, name);
    }
}

proof fn lemma_collected_same(parts: Seq<FieldPoints>, a: SeriesKey, b: SeriesKey, name: Seq<char>)
    requires
        a.same_as(&b),
    ensures
        collected(parts, a, name) == collected(parts, b, name),
    decreases parts.len(),
{
    if parts.len() > 0 {
        lemma_collected_same(parts.drop_last(), a, b, name);
    }
}

fn append_points(dst: &mut Vec<(u64, u64)>, src: &Vec<(u64, u64)>)
    ensures
        final(dst)@ == old(dst)@ + src@,
{
    let mut i: usize = 0;
    while i < src.len()
        invariant
            i <= src@.len(),
            dst@ == old(dst)@ + src@.take(i as int),
        decreases src.len() - i,
    {
        dst.push(src[i]);
        assert(src@.take(i as int + 1) =~= src@.take(i as int).push(src@[i as int]));
        i = i + 1;
    }
    assert(src@.take(src@.len() as int) =~= src@);
}

fn copy_points(src: &Vec<(u64, u64)>) -> (r: Vec<(u64, u64)>)
    ensures
        r@ == src@,
{
    let mut r: Vec<(u64, u64)> = Vec::new();
    append_points(&mut r, src);
    assert(r@ =~= src@);
    r
}

/// Some list of `lists` is for the series and field of `part`.
pub open spec fn covered(lists: Seq<FieldPoints>, part: FieldPoints) -> bool {
    exists|j: int| 0 <= j < lists.len() && (#[trigger] lists[j]).0.same_as(&part.0) && lists[j].1@ == part.1@
}

/// One of the first `upto` lists of `parts` is for field `name` of series `key`.
pub open spec fn from_part(parts: Seq<FieldPoints>, upto: int, key: SeriesKey, name: Seq<char>) -> bool {
    exists|p: int|
        0 <= p < upto && p < parts.len() && (#[trigger] parts[p]).0.same_as(&key) && parts[p].1@
            == name
}

/// Where a list of `parts` for `key` and `name` holds a point, so does what `parts` holds
/// for them.
proof fn lemma_collected_has(parts: Seq<FieldPoints>, key: SeriesKey, name: Seq<char>, p: int)
    requires
        0 <= p < parts.len(),
        parts[p].0.same_as(&key),
        parts[p].1@ == name,
        parts[p].2@.len() > 0,
    ensures
        has_ts(collected(parts, key, name), parts[p].2@[0].0),
    decreases parts.len(),
{
    let t = parts[p].2@[0].0;
    if p == parts.len() - 1 {
        let c = collected(parts, key, name);
        let rest = collected(parts.drop_last(), key, name);
        assert(c == rest + parts[p].2@);
        assert(c[rest.len() as int].0 == t);
    } else {
        assert(parts.drop_last()[p] == parts[p]);
        lemma_collected_has(parts.drop_last(), key, name, p);
        let rest = collected(parts.drop_last(), key, name);
        let q = choose|q: int| 0 <= q < rest.len() && #[trigger] rest[q].0 == t;
        let c = collected(parts, key, name);
        if parts.last().0.same_as(&key) && parts.last().1@ == name {
            assert(c[q] == rest[q]);
        }
    }
}

/// Merges the point lists that the sources of a query gave, oldest source first: one list per
/// series and field, sorted by timestamp, each timestamp once with the value written last.
pub fn merge_field_lists(parts: &Vec<FieldPoints>) -> (r: Vec<FieldPoints>)
    ensures
        forall|a: int, b: int|
            0 <= a < b < r@.len() ==> !((#[trigger] r@[a]).0.same_as(&(#[trigger] r@[b]).0)
                && r@[a].1@ == r@[b].1@),
        forall|j: int|
            0 <= j < r@.len() ==> is_merged(
                collected(parts@, (#[trigger] r@[j]).0, r@[j].1@),
                r@[j].2@,
            ),
        forall|p: int|
            0 <= p < parts@.len() ==> covered(r@, parts@[p]),
        forall|j: int|
            0 <= j < r@.len() ==> from_part(parts@, parts@.len() as int, (#[trigger] r@[j]).0, r@[j].1@),
{
    let mut raw: Vec<FieldPoints> = Vec::new();
    let mut i: usize = 0;
    while i < parts.len()
        invariant
            i <= parts@.len(),
            forall|a: int, b: int|
                0 <= a < b < raw@.len() ==> !((#[trigger] raw@[a]).0.same_as(
                    &(#[trigger] raw@[b]).0,
                ) && raw@[a].1@ == raw@[b].1@),
            forall|j: int|
                0 <= j < raw@.len() ==> (#[trigger] raw@[j]).2@ == collected(
                    parts@.take(i as int),
                    raw@[j].0,
                    raw@[j].1@,
                ),
            forall|p: int|
                0 <= p < i ==> covered(raw@, parts@[p]),
            forall|q: int|
                0 <= q < raw@.len() ==> from_part(parts@, i as int, (#[trigger] raw@[q]).0, raw@[q].1@),
        decreases parts.len() - i,
    {
        let part = &parts[i];
        let ghost s = parts@.take(i as int);
        let ghost s2 = parts@.take(i as int + 1);
        assert(s2.drop_last() =~= s);
        assert(s2.last() == parts@[i as int]);
        let ghost before = raw@;
        let mut j: usize = 0;
        while j < raw.len()
            invariant
                j <= raw@.len(),
                raw@ == before,
                i < parts@.len(),
                part == parts@[i as int],
                forall|q: int|
                    0 <= q < j ==> !((#[trigger] raw@[q]).0.same_as(&part.0) && raw@[q].1@
                        == part.1@),
            ensures
                j <= raw@.len(),
                raw@ == before,
                forall|q: int|
                    0 <= q < j ==> !((#[trigger] raw@[q]).0.same_as(&part.0) && raw@[q].1@
                        == part.1@),
                j < raw@.len() ==> raw@[j as int].0.same_as(&part.0) && raw@[j as int].1@
                    == part.1@,
            decreases raw.len() - j,
        {
            if raw[j].0.same_series(&part.0) && raw[j].1 == part.1 {
                break;
            }
            j = j + 1;
        }
        if j < raw.len() {
            let mut pts = copy_points(&raw[j].2);
            append_points(&mut pts, &part.2);
            let entry = (key_clone(&raw[j].0), raw[j].1.clone(), pts);
            raw.set(j, entry);
            proof {
                crate::types::lemma_pairs_map_views(raw@[j as int].0.tags@, before[j as int].0.tags@);
                assert forall|q: int| 0 <= q < raw@.len() implies (#[trigger] raw@[q]).2@
                    == collected(s2, raw@[q].0, raw@[q].1@) by {
                    if q == j {
                        lemma_collected_same(s, raw@[q].0, before[q].0, raw@[q].1@);
                    } else {
                        assert(raw@[q] == before[q]);
                        if raw@[q].0.same_as(&part.0) && raw@[q].1@ == part.1@ {
                            if q < j {
                                assert(!(before[q].0.same_as(&part.0) && before[q].1@ == part.1@));
                            } else {
                                assert(before[j as int].0.same_as(&before[q].0));
                            }
                        }
                    }
                }
                assert forall|a: int, b: int|
                    0 <= a < b < raw@.len() implies !((#[trigger] raw@[a]).0.same_as(
                    &(#[trigger] raw@[b]).0,
                ) && raw@[a].1@ == raw@[b].1@) by {
                    assert(before[a].0.same_as(&before[b].0) == raw@[a].0.same_as(&raw@[b].0));
                }
                assert forall|q: int| 0 <= q < raw@.len() implies from_part(
                    parts@,
                    i + 1,
                    (#[trigger] raw@[q]).0,
                    raw@[q].1@,
                ) by {
                    assert(from_part(parts@, i as int, before[q].0, before[q].1@));
                    let p = choose|p: int|
                        0 <= p < i && p < parts@.len() && (#[trigger] parts@[p]).0.same_as(
                            &before[q].0,
                        ) && parts@[p].1@ == before[q].1@;
                    assert(parts@[p].0.same_as(&raw@[q].0));
                }
                assert forall|p: int| 0 <= p < i + 1 implies covered(raw@, parts@[p]) by {
                    if p < i {
                        let q = choose|q: int|
                            0 <= q < before.len() && (#[trigger] before[q]).0.same_as(
                                &(#[trigger] parts@[p]).0,
                            ) && before[q].1@ == parts@[p].1@;
                        assert(raw@[q].0.same_as(&parts@[p].0));
                    } else {
                        assert(raw@[j as int].0.same_as(&parts@[p].0));
                    }
                }
            }
        } else {
            let pts = copy_points(&part.2);
            let entry = (key_clone(&part.0), part.1.clone(), pts);
            raw.push(entry);
            proof {
                let k = raw@[j as int].0;
                crate::types::lemma_pairs_map_views(k.tags@, part.0.tags@);
                assert forall|p: int|
                    0 <= p < s.len() implies !((#[trigger] s[p]).0.same_as(&k) && s[p].1@
                    == part.1@) by {
                    if s[p].0.same_as(&k) && s[p].1@ == part.1@ {
                        let q = choose|q: int|
                            0 <= q < before.len() && (#[trigger] before[q]).0.same_as(
                                &(#[trigger] parts@[p]).0,
                            ) && before[q].1@ == parts@[p].1@;
                        assert(s[p] == parts@[p]);
                        assert(before[q].0.same_as(&part.0));
                    }
                }
                lemma_collected_none(s, k, part.1@);
                assert(Seq::<(u64, u64)>::empty() + part.2@ =~= part.2@);
                assert forall|q: int| 0 <= q < raw@.len() implies (#[trigger] raw@[q]).2@
                    == collected(s2, raw@[q].0, raw@[q].1@) by {
                    if q < before.len() {
                        assert(raw@[q] == before[q]);
                        if raw@[q].0.same_as(&part.0) && raw@[q].1@ == part.1@ {
                            assert(false);
                        }
                    }
                }
                assert forall|a: int, b: int|
                    0 <= a < b < raw@.len() implies !((#[trigger] raw@[a]).0.same_as(
                    &(#[trigger] raw@[b]).0,
                ) && raw@[a].1@ == raw@[b].1@) by {
                    if b == before.len() {
                        assert(raw@[a] == before[a]);
                    } else {
                        assert(raw@[a] == before[a] && raw@[b] == before[b]);
                    }
                }
                assert forall|q: int| 0 <= q < raw@.len() implies from_part(
                    parts@,
                    i + 1,
                    (#[trigger] raw@[q]).0,
                    raw@[q].1@,
                ) by {
                    if q < before.len() {
                        assert(raw@[q] == before[q]);
                        assert(from_part(parts@, i as int, before[q].0, before[q].1@));
                        let p = choose|p: int|
                            0 <= p < i && p < parts@.len() && (#[trigger] parts@[p]).0.same_as(
                                &before[q].0,
                            ) && parts@[p].1@ == before[q].1@;
                    } else {
                        assert(parts@[i as int].0.same_as(&raw@[q].0));
                    }
                }
                assert forall|p: int| 0 <= p < i + 1 implies covered(raw@, parts@[p]) by {
                    if p < i {
                        let q = choose|q: int|
                            0 <= q < before.len() && (#[trigger] before[q]).0.same_as(
                                &(#[trigger] parts@[p]).0,
                            ) && before[q].1@ == parts@[p].1@;
                        assert(raw@[q] == before[q]);
                    } else {
                        assert(raw@[j as int].0.same_as(&parts@[p].0));
                    }
                }
            }
        }
        i = i + 1;
    }
    assert(parts@.take(parts@.len() as int) =~= parts@);
    assert(i == parts@.len());
    assert(forall|p: int|
        0 <= p < i ==> covered(raw@, parts@[p]));
    let mut out: Vec<FieldPoints> = Vec::new();
    let mut j: usize = 0;
    while j < raw.len()
        invariant
            j <= raw@.len(),
            out@.len() == j,
            forall|q: int|
                0 <= q < j ==> (#[trigger] out@[q]).0.same_as(&raw@[q].0) && out@[q].1@
                    == raw@[q].1@ && is_merged(raw@[q].2@, out@[q].2@),
            forall|p: int|
                0 <= p < parts@.len() ==> covered(raw@, parts@[p]),
            forall|q: int|
                0 <= q < raw@.len() ==> from_part(parts@, parts@.len() as int, (#[trigger] raw@[q]).0, raw@[q].1@),
            forall|q: int|
                0 <= q < raw@.len() ==> (#[trigger] raw@[q]).2@ == collected(
                    parts@,
                    raw@[q].0,
                    raw@[q].1@,
                ),
            forall|a: int, b: int|
                0 <= a < b < raw@.len() ==> !((#[trigger] raw@[a]).0.same_as(
                    &(#[trigger] raw@[b]).0,
                ) && raw@[a].1@ == raw@[b].1@),
        decreases raw.len() - j,
    {
        let merged = sort_dedup_last(&raw[j].2);
        let k = key_clone(&raw[j].0);
        proof {
            crate::types::lemma_pairs_map_views(k.tags@, raw@[j as int].0.tags@);
        }
        out.push((k, raw[j].1.clone(), merged));
        j = j + 1;
    }
    proof {
        assert forall|q: int| 0 <= q < out@.len() implies is_merged(
            collected(parts@, (#[trigger] out@[q]).0, out@[q].1@),
            out@[q].2@,
        ) by {
            lemma_collected_same(parts@, out@[q].0, raw@[q].0, out@[q].1@);
        }
        assert forall|a: int, b: int|
            0 <= a < b < out@.len() implies !((#[trigger] out@[a]).0.same_as(
            &(#[trigger] out@[b]).0,
        ) && out@[a].1@ == out@[b].1@) by {
            assert(out@[a].0.same_as(&raw@[a].0) && out@[b].0.same_as(&raw@[b].0));
        }
        assert forall|q: int| 0 <= q < out@.len() implies from_part(
            parts@,
            parts@.len() as int,
            (#[trigger] out@[q]).0,
            out@[q].1@,
        ) by {
            assert(from_part(parts@, parts@.len() as int, raw@[q].0, raw@[q].1@));
            let p = choose|p: int|
                0 <= p < parts@.len() && p < parts@.len() && (#[trigger] parts@[p]).0.same_as(
                    &raw@[q].0,
                ) && parts@[p].1@ == raw@[q].1@;
            assert(parts@[p].0.same_as(&out@[q].0));
        }
        assert forall|p: int| 0 <= p < parts@.len() implies covered(out@, parts@[p]) by {
            let q = choose|q: int|
                0 <= q < raw@.len() && (#[trigger] raw@[q]).0.same_as(&(#[trigger] parts@[p]).0)
                    && raw@[q].1@ == parts@[p].1@;
            assert(out@[q].0.same_as(&raw@[q].0));
            assert(out@[q].0.same_as(&parts@[p].0));
            assert(out@[q].1@ == parts@[p].1@);
        }
    }
    out
}


/// A list of points has a single point at `t` after merging, carrying the value written
/// last: where the points at `t` are written in order, the later write wins.
pub proof fn lemma_last_write_wins(s: Seq<(u64, u64)>, r: Seq<(u64, u64)>, i: int, j: int)
    requires
        is_merged(s, r),
        0 <= i < j < s.len(),
        s[i].0 == s[j].0,
        forall|k: int| j < k < s.len() ==> (#[trigger] s[k]).0 != s[j].0,
    ensures
        exists|q: int| 0 <= q < r.len() && (#[trigger] r[q]).0 == s[j].0 && r[q].1 == s[j].1,
        forall|q: int, q2: int|
            0 <= q < r.len() && 0 <= q2 < r.len() && (#[trigger] r[q]).0 == s[j].0 && (
            #[trigger] r[q2]).0 == s[j].0 ==> q == q2,
{
    assert(has_ts(s, s[j].0));
    assert(has_ts(r, s[j].0));
    let q = choose|q: int| 0 <= q < r.len() && #[trigger] r[q].0 == s[j].0;
    lemma_last_value_at(s, j);
    assert forall|q: int, q2: int|
        0 <= q < r.len() && 0 <= q2 < r.len() && (#[trigger] r[q]).0 == s[j].0 && (
        #[trigger] r[q2]).0 == s[j].0 implies q == q2 by {
        if q < q2 {
            assert(r[q].0 < r[q2].0);
        } else if q2 < q {
            assert(r[q2].0 < r[q].0);
        }
    }
}

/// The last point of `s` with the timestamp of `s[j]` being `s[j]`, its value is the last
/// value at that timestamp.
pub proof fn lemma_last_value_at(s: Seq<(u64, u64)>, j: int)
    requires
        0 <= j < s.len(),
        forall|k: int| j < k < s.len() ==> (#[trigger] s[k]).0 != s[j].0,
    ensures
        last_value(s, s[j].0) == s[j].1,
    decreases s.len(),
{
    if j < s.len() - 1 {
        assert(s.last() == s[s.len() - 1]);
        assert forall|k: int| j < k < s.len() - 1 implies (#[trigger] s.drop_last()[k]).0
            != s.drop_last()[j].0 by {
            assert(s.drop_last()[k] == s[k]);
        }
        lemma_last_value_at(s.drop_last(), j);
        assert(s.drop_last()[j] == s[j]);
    }
}

/// The points held for each series in a MemTable, as plain sequences.
pub open spec fn series_view(v: Seq<(SeriesKey, Vec<DataPoint>)>) -> Seq<(SeriesKey, Seq<DataPoint>)> {
    v.map_values(|e: (SeriesKey, Vec<DataPoint>)| (e.0, e.1@))
}

/// The number of points over all series.
pub open spec fn total_of(v: Seq<(SeriesKey, Seq<DataPoint>)>) -> nat
    decreases v.len(),
{
    if v.len() == 0 {
        0
    } else {
        total_of(v.drop_last()) + v.last().1.len()
    }
}

/// The in-memory table of recent writes: for each series, its points in the order written.
pub struct MemTable {
    series: Vec<(SeriesKey, Vec<DataPoint>)>,
}

impl View for MemTable {
    type V = Seq<(SeriesKey, Seq<DataPoint>)>;

    closed spec fn view(&self) -> Seq<(SeriesKey, Seq<DataPoint>)> {
        series_view(self.series@)
    }
}

/// No two entries name the same series.
pub open spec fn distinct_series(v: Seq<(SeriesKey, Seq<DataPoint>)>) -> bool {
    forall|a: int, b: int|
        0 <= a < b < v.len() ==> !(#[trigger] v[a]).0.same_as(&(#[trigger] v[b]).0)
}

impl MemTable {
    /// No two entries of the table name the same series.
    pub open spec fn wf(&self) -> bool {
        distinct_series(self@)
    }

    pub fn new() -> (r: Self)
        ensures
            r.wf(),
            r@ == Seq::<(SeriesKey, Seq<DataPoint>)>::empty(),
    {
        let r = MemTable { series: Vec::new() };
        assert(r@ =~= Seq::<(SeriesKey, Seq<DataPoint>)>::empty());
        r
    }

    /// Appends a point to the points of its series; a series not seen before is added last.
    pub fn insert(&mut self, key: SeriesKey, point: DataPoint)
        requires
            old(self).wf(),
        ensures
            final(self).wf(),
            (exists|i: int| 0 <= i < old(self)@.len() && (#[trigger] old(self)@[i]).0.same_as(&key))
                ==> exists|i: int|
                0 <= i < old(self)@.len() && (#[trigger] old(self)@[i]).0.same_as(&key)
                    && final(self)@ == old(self)@.update(
                    i,
                    (old(self)@[i].0, old(self)@[i].1.push(point)),
                ),
            !(exists|i: int| 0 <= i < old(self)@.len() && (#[trigger] old(self)@[i]).0.same_as(&key))
                ==> final(self)@ == old(self)@.push((key, seq![point])),
    {
        let mut i: usize = 0;
        while i < self.series.len()
            invariant
                i <= self@.len(),
                self@ == old(self)@,
                distinct_series(self@),
                self@.len() == self.series@.len(),
                forall|q: int| 0 <= q < i ==> !(#[trigger] self@[q]).0.same_as(&key),
            decreases self.series.len() - i,
        {
            if self.series[i].0.same_series(&key) {
                let ghost before = self.series@;
                let (k, mut pts) = self.series.remove(i);
                pts.push(point);
                self.series.insert(i, (k, pts));
                proof {
                    assert(series_view(self.series@) =~= series_view(before).update(
                        i as int,
                        (series_view(before)[i as int].0, series_view(before)[i as int].1.push(
                            point,
                        )),
                    ));
                    assert forall|a: int, b: int| 0 <= a < b < self@.len() implies !(
                    #[trigger] self@[a]).0.same_as(&(#[trigger] self@[b]).0) by {
                        assert(self@[a].0 == old(self)@[a].0 && self@[b].0 == old(self)@[b].0);
                    }
                }
                return ;
            }
            i = i + 1;
        }
        let ghost before = self.series@;
        let mut v: Vec<DataPoint> = Vec::new();
        v.push(point);
        self.series.push((key, v));
        proof {
            assert(series_view(self.series@) =~= series_view(before).push((key, seq![point])));
            assert forall|a: int, b: int| 0 <= a < b < self@.len() implies !(
            #[trigger] self@[a]).0.same_as(&(#[trigger] self@[b]).0) by {
                if b == self@.len() - 1 {
                    assert(!self@[a].0.same_as(&key));
                    assert(!(self@[a].0.same_as(&key)) ==> !(self@[a].0.same_as(&self@[b].0)));
                }
            }
        }
    }

    /// The number of points over all series, or `usize::MAX` where there are more.
    pub fn total_points(&self) -> (r: usize)
        ensures
            r == if total_of(self@) <= usize::MAX {
                total_of(self@)
            } else {
                usize::MAX as nat
            },
    {
        let mut total: usize = 0;
        let mut i: usize = 0;
        while i < self.series.len()
            invariant
                i <= self@.len(),
                self@.len() == self.series@.len(),
                total == if total_of(self@.take(i as int)) <= usize::MAX {
                    total_of(self@.take(i as int))
                } else {
                    usize::MAX as nat
                },
            decreases self.series.len() - i,
        {
            assert(self@.take(i as int + 1).drop_last() =~= self@.take(i as int));
            assert(self@[i as int].1.len() == self.series@[i as int].1@.len());
            total = total.saturating_add(self.series[i].1.len());
            i = i + 1;
        }
        assert(self@.take(self@.len() as int) =~= self@);
        total
    }

    /// Hands over every series and leaves the table empty.
    pub fn snapshot_and_clear(&mut self) -> (r: Vec<(SeriesKey, Vec<DataPoint>)>)
        ensures
            series_view(r@) == old(self)@,
            final(self).wf(),
            final(self)@ == Seq::<(SeriesKey, Seq<DataPoint>)>::empty(),
    {
        let r = self.series.split_off(0);
        assert(r@ =~= old(self).series@);
        assert(self@ =~= Seq::<(SeriesKey, Seq<DataPoint>)>::empty());
        r
    }
}


/// `part` is the in-range list of a wanted field of a selected series of `v`.
pub open spec fn mem_part(v: Seq<(SeriesKey, Seq<DataPoint>)>, filter: QueryFilter, part: FieldPoints) -> bool {
    exists|i: int|
        0 <= i < v.len() && filter.selects(&(#[trigger] v[i]).0) && key_view(part.0) == key_view(
            v[i].0,
        ) && part.0.same_as(&v[i].0) && filter.wants_field(part.1@) && part.2@ == in_range(
            field_series(v[i].1, part.1@),
            filter.time_range.0,
            filter.time_range.1,
        ) && part.2@.len() > 0
}

/// Some list of `parts` is for field `name` of series `key`.
pub open spec fn has_part(parts: Seq<FieldPoints>, key: SeriesKey, name: Seq<char>) -> bool {
    exists|j: int| 0 <= j < parts.len() && (#[trigger] parts[j]).0.same_as(&key) && parts[j].1@ == name
}

impl MemTable {
    /// The points that `filter` asks for, one list per selected series and wanted field that
    /// has points in the time range, in the order written.
    pub fn query(&self, filter: &QueryFilter) -> (r: Vec<FieldPoints>)
        ensures
            forall|j: int| 0 <= j < r@.len() ==> mem_part(self@, *filter, #[trigger] r@[j]),
            forall|i: int, name: Seq<char>|
                0 <= i < self@.len() && filter.selects(&(#[trigger] self@[i]).0) && filter.wants_field(
                    name,
                ) && #[trigger] in_range(
                    field_series(self@[i].1, name),
                    filter.time_range.0,
                    filter.time_range.1,
                ).len() > 0 ==> has_part(r@, self@[i].0, name),
    {
        let (start, end) = filter.time_range;
        let mut out: Vec<FieldPoints> = Vec::new();
        let mut i: usize = 0;
        while i < self.series.len()
            invariant
                i <= self@.len(),
                self@.len() == self.series@.len(),
                (start, end) == filter.time_range,
                forall|j: int| 0 <= j < out@.len() ==> mem_part(self@, *filter, #[trigger] out@[j]),
                forall|q: int, name: Seq<char>|
                    0 <= q < i && filter.selects(&(#[trigger] self@[q]).0) && filter.wants_field(
                        name,
                    ) && #[trigger] in_range(field_series(self@[q].1, name), start, end).len() > 0
                        ==> has_part(out@, self@[q].0, name),
            decreases self.series.len() - i,
        {
            let key = &self.series[i].0;
            let ghost before_outer = out@;
            if filter.matches_series(key) {
                let groups = group_fields(&self.series[i].1);
                let mut g: usize = 0;
                while g < groups.len()
                    invariant
                        i < self@.len(),
                        self@.len() == self.series@.len(),
                        (start, end) == filter.time_range,
                        key == &self.series@[i as int].0,
                        filter.selects(key),
                        g <= groups@.len(),
                        forall|a: int, b: int|
                            0 <= a < b < groups@.len() ==> #[trigger] groups@[a].0@
                                != #[trigger] groups@[b].0@,
                        forall|j: int|
                            0 <= j < groups@.len() ==> #[trigger] groups@[j].1@ == field_series(
                                self.series@[i as int].1@,
                                groups@[j].0@,
                            ),
                        forall|name: Seq<char>|
                            #[trigger] some_point_has(self.series@[i as int].1@, name) <==> exists|
                                j: int,
                            | 0 <= j < groups@.len() && #[trigger] groups@[j].0@ == name,
                        forall|j: int| 0 <= j < out@.len() ==> mem_part(self@, *filter, #[trigger] out@[j]),
                        forall|q: int, name: Seq<char>|
                            0 <= q < i && filter.selects(&(#[trigger] self@[q]).0) && filter.wants_field(
                                name,
                            ) && #[trigger] in_range(field_series(self@[q].1, name), start, end).len()
                                > 0 ==> has_part(out@, self@[q].0, name),
                        forall|j: int|
                            0 <= j < g && filter.wants_field(#[trigger] groups@[j].0@) && in_range(
                                groups@[j].1@,
                                start,
                                end,
                            ).len() > 0 ==> has_part(out@, self@[i as int].0, groups@[j].0@),
                    decreases groups.len() - g,
                {
                    let name = &groups[g].0;
                    let ghost before = out@;
                    if filter.includes_field(name) {
                        let pts = filter_range(&groups[g].1, start, end);
                        if pts.len() > 0 {
                            let k = key_clone(key);
                            proof {
                                crate::types::lemma_pairs_map_views(k.tags@, key.tags@);
                                assert(self@[i as int].0 == self.series@[i as int].0);
                                assert(self@[i as int].1 == self.series@[i as int].1@);
                            }
                            out.push((k, name.clone(), pts));
                            proof {
                                assert(mem_part(self@, *filter, out@[out@.len() - 1]));
                                assert(out@[out@.len() - 1].0.same_as(&self@[i as int].0));
                            }
                        }
                    }
                    proof {
                        assert forall|j: int| 0 <= j < out@.len() implies mem_part(
                            self@,
                            *filter,
                            #[trigger] out@[j],
                        ) by {
                            if j < before.len() {
                                assert(out@[j] == before[j]);
                            }
                        }
                        assert forall|q: int, nm: Seq<char>|
                            0 <= q < i && filter.selects(&(#[trigger] self@[q]).0)
                                && filter.wants_field(nm) && #[trigger] in_range(
                                field_series(self@[q].1, nm),
                                start,
                                end,
                            ).len() > 0 implies has_part(out@, self@[q].0, nm) by {
                            assert(has_part(before, self@[q].0, nm));
                            let jj = choose|jj: int|
                                0 <= jj < before.len() && (#[trigger] before[jj]).0.same_as(
                                    &self@[q].0,
                                ) && before[jj].1@ == nm;
                            assert(out@[jj] == before[jj]);
                        }
                        assert forall|j: int|
                            0 <= j < g + 1 && filter.wants_field(#[trigger] groups@[j].0@)
                                && in_range(groups@[j].1@, start, end).len() > 0 implies has_part(
                            out@,
                            self@[i as int].0,
                            groups@[j].0@,
                        ) by {
                            if j < g {
                                assert(has_part(before, self@[i as int].0, groups@[j].0@));
                                let jj = choose|jj: int|
                                    0 <= jj < before.len() && (#[trigger] before[jj]).0.same_as(
                                        &self@[i as int].0,
                                    ) && before[jj].1@ == groups@[j].0@;
                                assert(out@[jj] == before[jj]);
                            } else {
                                let jj = out@.len() - 1;
                                assert(out@[jj].0.same_as(&self@[i as int].0));
                            }
                        }
                    }
                    g = g + 1;
                }
                proof {
                    assert forall|q: int, nm: Seq<char>|
                        0 <= q < i + 1 && filter.selects(&(#[trigger] self@[q]).0)
                            && filter.wants_field(nm) && #[trigger] in_range(
                            field_series(self@[q].1, nm),
                            start,
                            end,
                        ).len() > 0 implies has_part(out@, self@[q].0, nm) by {
                        if q == i {
                            assert(self@[q].1 == self.series@[i as int].1@);
                            crate::points::lemma_in_range_nonempty(
                                field_series(self@[q].1, nm),
                                start,
                                end,
                            );
                            lemma_field_series_has(self@[q].1, nm);
                            let j = choose|j: int| 0 <= j < groups@.len() && #[trigger] groups@[j].0@ == nm;
                        }
                    }
                }
            } else {
                proof {
                    assert forall|q: int, nm: Seq<char>|
                        0 <= q < i + 1 && filter.selects(&(#[trigger] self@[q]).0)
                            && filter.wants_field(nm) && #[trigger] in_range(
                            field_series(self@[q].1, nm),
                            start,
                            end,
                        ).len() > 0 implies has_part(out@, self@[q].0, nm) by {
                        if q == i {
                            assert(self@[q].0 == self.series@[i as int].0);
                        }
                    }
                }
            }
            i = i + 1;
        }
        out
    }
}

/// A field with points somewhere is carried by some point.
proof fn lemma_field_series_has(ps: Seq<DataPoint>, name: Seq<char>)
    requires
        field_series(ps, name).len() > 0,
    ensures
        some_point_has(ps, name),
    decreases ps.len(),
{
    if ps.len() > 0 {
        if crate::types::fields_map(ps.last().fields@).contains_key(name) {
            assert(ps[ps.len() - 1] == ps.last());
        } else {
            lemma_field_series_has(ps.drop_last(), name);
            let m = choose|m: int|
                0 <= m < ps.len() - 1 && crate::types::fields_map(
                    #[trigger] ps.drop_last()[m].fields@,
                ).contains_key(name);
            assert(ps.drop_last()[m] == ps[m]);
        }
    }
}


/// `v` is what merging the lists `parts` gives.
pub open spec fn merge_of(parts: Seq<FieldPoints>, v: Seq<FieldPoints>) -> bool {
    &&& forall|a: int, b: int|
        0 <= a < b < v.len() ==> !((#[trigger] v[a]).0.same_as(&(#[trigger] v[b]).0) && v[a].1@
            == v[b].1@)
    &&& forall|j: int| 0 <= j < v.len() ==> is_merged(collected(parts, (#[trigger] v[j]).0, v[j].1@), v[j].2@)
    &&& forall|p: int| 0 <= p < parts.len() ==> covered(v, #[trigger] parts[p])
    &&& forall|j: int| 0 <= j < v.len() ==> from_part(parts, parts.len() as int, (#[trigger] v[j]).0, v[j].1@)
}

/// From position `k` on, `parts` holds the MemTable's answer to `filter`: lists of the
/// MemTable only, and one for every selected series and wanted field with points in range.
pub open spec fn memtable_tail(
    parts: Seq<FieldPoints>,
    k: int,
    mem: Seq<(SeriesKey, Seq<DataPoint>)>,
    filter: QueryFilter,
) -> bool {
    &&& 0 <= k <= parts.len()
    &&& forall|j: int| k <= j < parts.len() ==> mem_part(mem, filter, #[trigger] parts[j])
    &&& forall|i: int, name: Seq<char>|
        0 <= i < mem.len() && filter.selects(&(#[trigger] mem[i]).0) && filter.wants_field(name)
            && #[trigger] in_range(
            field_series(mem[i].1, name),
            filter.time_range.0,
            filter.time_range.1,
        ).len() > 0 ==> has_part(parts.subrange(k, parts.len() as int), mem[i].0, name)
}

/// One list of points of one field of one series, as plain values.
pub type PartView = (crate::sstable::KeyView, Seq<char>, Seq<(u64, u64)>);

pub open spec fn part_view(p: FieldPoints) -> PartView {
    (key_view(p.0), p.1@, p.2@)
}

/// The plain values of a sequence of lists.
pub open spec fn parts_view(parts: Seq<FieldPoints>) -> Seq<PartView> {
    parts.map_values(|p: FieldPoints| part_view(p))
}

/// The lists of one entry of a table's answer: one per field, with the entry's key.
pub open spec fn entry_lists(e: (SeriesKey, Vec<(String, Vec<(u64, u64)>)>)) -> Seq<PartView> {
    e.1@.map_values(|f: (String, Vec<(u64, u64)>)| (key_view(e.0), f.0@, f.1@))
}

/// The lists of a table's answer, entry after entry.
pub open spec fn flat(res: Seq<(SeriesKey, Vec<(String, Vec<(u64, u64)>)>)>) -> Seq<PartView>
    decreases res.len(),
{
    if res.len() == 0 {
        seq![]
    } else {
        flat(res.drop_last()) + entry_lists(res.last())
    }
}

proof fn lemma_flat_nonempty(res: Seq<(SeriesKey, Vec<(String, Vec<(u64, u64)>)>)>)
    requires
        forall|e: int, f: int|
            0 <= e < res.len() && 0 <= f < res[e].1@.len() ==> (#[trigger] res[e].1@[f]).1@.len() > 0,
    ensures
        forall|j: int| 0 <= j < flat(res).len() ==> (#[trigger] flat(res)[j]).2.len() > 0,
    decreases res.len(),
{
    if res.len() > 0 {
        let d = res.drop_last();
        assert forall|e: int, f: int|
            0 <= e < d.len() && 0 <= f < d[e].1@.len() implies (#[trigger] d[e].1@[f]).1@.len() > 0 by {
            assert(d[e] == res[e]);
        }
        lemma_flat_nonempty(d);
        let a = flat(d);
        let b = entry_lists(res.last());
        assert(flat(res) == a + b);
        assert forall|j: int| 0 <= j < flat(res).len() implies (#[trigger] flat(res)[j]).2.len() > 0 by {
            if j >= a.len() {
                let f = j - a.len();
                assert(b[f] == (key_view(res.last().0), res.last().1@[f].0@, res.last().1@[f].1@));
                assert(res.last() == res[res.len() - 1]);
            }
        }
    }
}

/// The lists of several tables' answers, table after table.
pub open spec fn flat_all(vs: Seq<Seq<(SeriesKey, Vec<(String, Vec<(u64, u64)>)>)>>) -> Seq<PartView>
    decreases vs.len(),
{
    if vs.len() == 0 {
        seq![]
    } else {
        flat_all(vs.drop_last()) + flat(vs.last())
    }
}

/// The lists that one table answered, one per series and field, in order.
pub fn flatten_results(res: &Vec<(SeriesKey, Vec<(String, Vec<(u64, u64)>)>)>) -> (r: Vec<FieldPoints>)
    ensures
        parts_view(r@) == flat(res@),
{
    let mut out: Vec<FieldPoints> = Vec::new();
    let mut i: usize = 0;
    while i < res.len()
        invariant
            i <= res@.len(),
            parts_view(out@) == flat(res@.take(i as int)),
        decreases res.len() - i,
    {
        let fields = &res[i].1;
        let ghost base = out@;
        assert(res@.take(i as int + 1).drop_last() =~= res@.take(i as int));
        assert(res@.take(i as int + 1).last() == res@[i as int]);
        let mut f: usize = 0;
        while f < fields.len()
            invariant
                i < res@.len(),
                fields == res@[i as int].1,
                f <= fields@.len(),
                parts_view(out@) == parts_view(base) + entry_lists(res@[i as int]).take(f as int),
            decreases fields.len() - f,
        {
            let k = key_clone(&res[i].0);
            let pts = copy_points(&fields[f].1);
            let ghost before = out@;
            out.push((k, fields[f].0.clone(), pts));
            proof {
                let e = entry_lists(res@[i as int]);
                assert(e[f as int] == (key_view(res@[i as int].0), fields@[f as int].0@, fields@[f as int].1@));
                assert(parts_view(out@) =~= parts_view(before).push(part_view(out@[out@.len() - 1])));
                assert(e.take(f as int + 1) =~= e.take(f as int).push(e[f as int]));
            }
            f = f + 1;
        }
        assert(entry_lists(res@[i as int]).take(fields@.len() as int) =~= entry_lists(res@[i as int]));
        i = i + 1;
    }
    assert(res@.take(res@.len() as int) =~= res@);
    out
}

/// Each table's answer `vs[t]` answers `filter` over that table's index and bytes.
pub open spec fn tables_answer(
    tables: Seq<(&SSTable, &[u8])>,
    filter: QueryFilter,
    vs: Seq<Seq<(SeriesKey, Vec<(String, Vec<(u64, u64)>)>)>>,
) -> bool {
    &&& vs.len() == tables.len()
    &&& forall|t: int| 0 <= t < tables.len() ==> #[trigger] tables[t].0.answers(tables[t].1@, filter, vs[t])
}

/// `v` is the store's answer to `filter`: the merge of `parts`, whose first `k` lists are the
/// tables' answers (oldest table first) and whose rest is the MemTable's answer.
pub open spec fn store_answer(
    tables: Seq<(&SSTable, &[u8])>,
    mem: Seq<(SeriesKey, Seq<DataPoint>)>,
    filter: QueryFilter,
    v: Seq<FieldPoints>,
    parts: Seq<FieldPoints>,
    k: int,
) -> bool {
    &&& merge_of(parts, v)
    &&& memtable_tail(parts, k, mem, filter)
    &&& exists|vs: Seq<Seq<(SeriesKey, Vec<(String, Vec<(u64, u64)>)>)>>|
        #[trigger] tables_answer(tables, filter, vs) && parts_view(parts.take(k)) == flat_all(vs)
}

/// `v` is the store's answer to `filter` (see `store_answer`).
pub open spec fn store_answers(
    tables: Seq<(&SSTable, &[u8])>,
    mem: Seq<(SeriesKey, Seq<DataPoint>)>,
    filter: QueryFilter,
    v: Seq<FieldPoints>,
) -> bool {
    exists|parts: Seq<FieldPoints>, k: int| #[trigger] store_answer(tables, mem, filter, v, parts, k)
}

/// Answers a query over the tables (oldest first, each with the bytes of its file) and the
/// MemTable: for each series and field, the points in range, sorted by timestamp, each
/// timestamp once with the value written last. A table series that cannot be read is
/// skipped; the query itself always succeeds.
pub fn query_store(tables: &Vec<(&SSTable, &[u8])>, mem: &MemTable, filter: &QueryFilter) -> (r:
    Result<Vec<FieldPoints>, Error>)
    ensures
        r is Ok,
        r matches Ok(v) ==> store_answers(tables@, mem@, *filter, v@),
        r matches Ok(v) ==> forall|j: int| 0 <= j < v@.len() ==> crate::points::strictly_sorted(
            (#[trigger] v@[j]).2@,
        ) && v@[j].2@.len() > 0,
{
    let mut parts: Vec<FieldPoints> = Vec::new();
    let ghost mut vs: Seq<Seq<(SeriesKey, Vec<(String, Vec<(u64, u64)>)>)>> = Seq::empty();
    let mut t: usize = 0;
    while t < tables.len()
        invariant
            t <= tables@.len(),
            vs.len() == t,
            forall|q: int| 0 <= q < t ==> #[trigger] tables@[q].0.answers(tables@[q].1@, *filter, vs[q]),
            parts_view(parts@) == flat_all(vs),
            forall|j: int| 0 <= j < parts@.len() ==> (#[trigger] parts@[j]).2@.len() > 0,
        decreases tables.len() - t,
    {
        let (table, data) = tables[t];
        let res = match table.query(data, filter) {
            Ok(v) => v,
            Err(e) => {
                return Err(e);
            },
        };
        let ghost before = parts@;
        let ghost vs0 = vs;
        let mut flat_part = flatten_results(&res);
        let ghost fp = flat_part@;
        parts.append(&mut flat_part);
        proof {
            let idx = choose|idx: Seq<int>|
                #[trigger] table.answer_upto(data@, *filter, res@, idx, table.index().len() as int);
            assert forall|e: int, f: int|
                0 <= e < res@.len() && 0 <= f < res@[e].1@.len() implies (
                #[trigger] res@[e].1@[f]).1@.len() > 0 by {
                assert(table.entry_for(data@, *filter, idx[e], res@[e]));
            }
            lemma_flat_nonempty(res@);
            assert forall|j: int| 0 <= j < parts@.len() implies (#[trigger] parts@[j]).2@.len() > 0 by {
                if j >= before.len() {
                    assert(parts@[j] == fp[j - before.len()]);
                    assert(parts_view(fp)[j - before.len()] == part_view(fp[j - before.len()]));
                } else {
                    assert(parts@[j] == before[j]);
                }
            }
            vs = vs.push(res@);
            assert(vs.drop_last() =~= vs0);
            assert(parts_view(parts@) =~= parts_view(before) + parts_view(fp));
            assert forall|q: int| 0 <= q < t + 1 implies #[trigger] tables@[q].0.answers(
                tables@[q].1@,
                *filter,
                vs[q],
            ) by {
                if q < t {
                    assert(vs[q] == vs0[q]);
                }
            }
        }
        t = t + 1;
    }
    let ghost k = parts@.len() as int;
    let ghost table_parts = parts@;
    let mut mine = mem.query(filter);
    let ghost m = mine@;
    parts.append(&mut mine);
    proof {
        assert(parts@.subrange(k, parts@.len() as int) =~= m);
        assert forall|j: int| k <= j < parts@.len() implies mem_part(mem@, *filter, #[trigger] parts@[j]) by {
            assert(parts@[j] == m[j - k]);
        }
        assert(parts@.take(k) =~= table_parts);
        assert(tables_answer(tables@, *filter, vs));
    }
    let out = merge_field_lists(&parts);
    proof {
        assert(memtable_tail(parts@, k, mem@, *filter));
        assert(merge_of(parts@, out@));
        assert forall|j: int| 0 <= j < parts@.len() implies (#[trigger] parts@[j]).2@.len() > 0 by {
            if j >= k {
                assert(mem_part(mem@, *filter, parts@[j]));
            } else {
                assert(parts@[j] == table_parts[j]);
            }
        }
        assert forall|j: int| 0 <= j < out@.len() implies crate::points::strictly_sorted(
            (#[trigger] out@[j]).2@,
        ) && out@[j].2@.len() > 0 by {
            assert(from_part(parts@, parts@.len() as int, out@[j].0, out@[j].1@));
            let p = choose|p: int|
                0 <= p < parts@.len() && p < parts@.len() && (#[trigger] parts@[p]).0.same_as(
                    &out@[j].0,
                ) && parts@[p].1@ == out@[j].1@;
            lemma_collected_has(parts@, out@[j].0, out@[j].1@, p);
            assert(is_merged(collected(parts@, out@[j].0, out@[j].1@), out@[j].2@));
            assert(has_ts(out@[j].2@, parts@[p].2@[0].0));
        }
        assert(store_answer(tables@, mem@, *filter, out@, parts@, k));
        assert(store_answers(tables@, mem@, *filter, out@));
    }
    Ok(out)
}

/// Where the database keeps its files, and when the MemTable is flushed.
pub struct DbConfig {
    pub sstable_dir: String,
    pub wal_path: String,
    /// The MemTable is flushed once it holds at least this many points.
    pub memtable_size_threshold: usize,
}

impl DbConfig {
    /// The configuration used when none is given: files under `./data`, a flush every 1000
    /// points.
    pub fn default() -> (r: Self)
        ensures
            r.sstable_dir@ == "./data/sstable"@,
            r.wal_path@ == "./data/wal.log"@,
            r.memtable_size_threshold == 1000,
    {
        DbConfig {
            sstable_dir: "./data/sstable".to_string(),
            wal_path: "./data/wal.log".to_string(),
            memtable_size_threshold: 1000,
        }
    }
}

/// Storage statistics.
pub struct DbStats {
    pub sstable_count: usize,
    pub total_disk_size: u64,
    pub memtable_records: usize,
}

/// Whether a flush cycle flushes: the MemTable holds at least `threshold` points.
pub fn should_flush(mem: &MemTable, threshold: usize) -> (r: bool)
    ensures
        r == (total_of(mem@) >= threshold),
{
    mem.total_points() >= threshold
}

/// The series that a write to `measurement` goes to: the measurement and the point's tags.
pub fn series_key_for(measurement: &str, point: &DataPoint) -> (r: SeriesKey)
    ensures
        r.measurement@ == measurement@,
        r.tag_map() == point.tag_map(),
{
    let k = SeriesKey { measurement: measurement.to_string(), tags: Vec::new() };
    let mut tags: Vec<(String, String)> = Vec::new();
    let mut i: usize = 0;
    while i < point.tags.len()
        invariant
            i <= point.tags@.len(),
            crate::types::pairs_view(tags@) == crate::types::pairs_view(point.tags@.take(i as int)),
        decreases point.tags.len() - i,
    {
        let ghost before = tags@;
        tags.push((point.tags[i].0.clone(), point.tags[i].1.clone()));
        assert(point.tags@.take(i as int + 1) =~= point.tags@.take(i as int).push(point.tags@[i as int]));
        assert(crate::types::pairs_view(tags@) =~= crate::types::pairs_view(before).push(
            (point.tags@[i as int].0@, point.tags@[i as int].1@),
        ));
        assert(crate::types::pairs_view(point.tags@.take(i as int + 1)) =~= crate::types::pairs_view(
            point.tags@.take(i as int),
        ).push((point.tags@[i as int].0@, point.tags@[i as int].1@)));
        i = i + 1;
    }
    assert(point.tags@.take(point.tags@.len() as int) =~= point.tags@);
    proof {
        crate::types::lemma_pairs_map_views(tags@, point.tags@);
    }
    SeriesKey { measurement: k.measurement, tags }
}

proof fn lemma_collected_concat(a: Seq<FieldPoints>, b: Seq<FieldPoints>, key: SeriesKey, name: Seq<char>)
    ensures
        collected(a + b, key, name) == collected(a, key, name) + collected(b, key, name),
    decreases b.len(),
{
    if b.len() == 0 {
        assert(a + b =~= a);
        assert(collected(b, key, name) =~= Seq::<(u64, u64)>::empty());
        assert(collected(a, key, name) + Seq::<(u64, u64)>::empty() =~= collected(a, key, name));
    } else {
        assert((a + b).drop_last() =~= a + b.drop_last());
        assert((a + b).last() == b.last());
        lemma_collected_concat(a, b.drop_last(), key, name);
        let x = collected(a, key, name);
        let y = collected(b.drop_last(), key, name);
        assert(x + y + b.last().2@ =~= x + (y + b.last().2@));
    }
}

proof fn lemma_last_value_concat(a: Seq<(u64, u64)>, b: Seq<(u64, u64)>, t: u64)
    requires
        has_ts(b, t),
    ensures
        last_value(a + b, t) == last_value(b, t),
    decreases b.len(),
{
    let q = choose|q: int| 0 <= q < b.len() && #[trigger] b[q].0 == t;
    assert((a + b).drop_last() =~= a + b.drop_last());
    assert((a + b).last() == b.last());
    if b.last().0 != t {
        assert(q < b.len() - 1);
        assert(b.drop_last()[q].0 == t);
        lemma_last_value_concat(a, b.drop_last(), t);
    }
}

/// Lists that all equal `l` (at least one of them) give, collected, the last values of `l`.
proof fn lemma_repeated_last_value(
    tail: Seq<FieldPoints>,
    key: SeriesKey,
    name: Seq<char>,
    l: Seq<(u64, u64)>,
    t: u64,
)
    requires
        has_ts(l, t),
        forall|j: int|
            0 <= j < tail.len() && (#[trigger] tail[j]).0.same_as(&key) && tail[j].1@ == name
                ==> tail[j].2@ == l,
        has_part(tail, key, name),
    ensures
        has_ts(collected(tail, key, name), t),
        last_value(collected(tail, key, name), t) == last_value(l, t),
    decreases tail.len(),
{
    let last = tail.last();
    let rest = tail.drop_last();
    assert forall|j: int|
        0 <= j < rest.len() && (#[trigger] rest[j]).0.same_as(&key) && rest[j].1@ == name
            implies rest[j].2@ == l by {
        assert(rest[j] == tail[j]);
    }
    if last.0.same_as(&key) && last.1@ == name {
        assert(tail[tail.len() - 1] == last);
        lemma_last_value_concat(collected(rest, key, name), l, t);
        let q = choose|q: int| 0 <= q < l.len() && #[trigger] l[q].0 == t;
        let c = collected(rest, key, name) + l;
        assert(c[collected(rest, key, name).len() + q].0 == t);
    } else {
        let j = choose|j: int|
            0 <= j < tail.len() && (#[trigger] tail[j]).0.same_as(&key) && tail[j].1@ == name;
        assert(j < tail.len() - 1);
        assert(rest[j] == tail[j]);
        lemma_repeated_last_value(rest, key, name, l, t);
    }
}

/// The MemTable's last write wins: in a query's answer, a timestamp that the MemTable holds
/// for a series and field carries the value last written to the MemTable, whatever the tables
/// hold for it.
#[verifier::rlimit(100)]
pub proof fn lemma_memtable_value_wins(
    parts: Seq<FieldPoints>,
    k: int,
    mem: Seq<(SeriesKey, Seq<DataPoint>)>,
    filter: QueryFilter,
    v: Seq<FieldPoints>,
    i: int,
    name: Seq<char>,
    t: u64,
)
    requires
        merge_of(parts, v),
        memtable_tail(parts, k, mem, filter),
        distinct_series(mem),
        0 <= i < mem.len(),
        filter.selects(&mem[i].0),
        filter.wants_field(name),
        has_ts(in_range(field_series(mem[i].1, name), filter.time_range.0, filter.time_range.1), t),
    ensures
        exists|j: int, q: int|
            0 <= j < v.len() && 0 <= q < v[j].2@.len() && v[j].0.same_as(&mem[i].0)
                && v[j].1@ == name && #[trigger] v[j].2@[q] == (t, last_value(
                in_range(field_series(mem[i].1, name), filter.time_range.0, filter.time_range.1),
                t,
            )),
{
    let l = in_range(field_series(mem[i].1, name), filter.time_range.0, filter.time_range.1);
    let tail = parts.subrange(k, parts.len() as int);
    let head = parts.subrange(0, k);
    assert(parts =~= head + tail);
    let q0 = choose|q: int| 0 <= q < l.len() && #[trigger] l[q].0 == t;
    assert(l.len() > 0);
    assert(has_part(tail, mem[i].0, name));
    let jt = choose|jt: int|
        0 <= jt < tail.len() && (#[trigger] tail[jt]).0.same_as(&mem[i].0) && tail[jt].1@ == name;
    assert(tail[jt] == parts[k + jt]);
    assert(covered(v, parts[k + jt]));
    let j = choose|j: int|
        0 <= j < v.len() && (#[trigger] v[j]).0.same_as(&parts[k + jt].0) && v[j].1@ == parts[k
            + jt].1@;
    let key = v[j].0;
    assert forall|x: int|
        0 <= x < tail.len() && (#[trigger] tail[x]).0.same_as(&key) && tail[x].1@ == name
            implies tail[x].2@ == l by {
        assert(tail[x] == parts[k + x]);
        assert(mem_part(mem, filter, parts[k + x]));
        let i2 = choose|i2: int|
            0 <= i2 < mem.len() && filter.selects(&(#[trigger] mem[i2]).0) && key_view(
                parts[k + x].0,
            ) == key_view(mem[i2].0) && parts[k + x].0.same_as(&mem[i2].0) && filter.wants_field(
                parts[k + x].1@,
            ) && parts[k + x].2@ == in_range(
                field_series(mem[i2].1, parts[k + x].1@),
                filter.time_range.0,
                filter.time_range.1,
            ) && parts[k + x].2@.len() > 0;
        if i2 != i {
            assert(mem[i2].0.same_as(&mem[i].0));
            if i2 < i {
                assert(!mem[i2].0.same_as(&mem[i].0));
            } else {
                assert(!mem[i].0.same_as(&mem[i2].0));
            }
        }
    }
    assert(has_part(tail, key, name)) by {
        assert(tail[jt].0.same_as(&key));
    }
    lemma_repeated_last_value(tail, key, name, l, t);
    lemma_collected_concat(head, tail, key, name);
    let c = collected(parts, key, name);
    lemma_last_value_concat(collected(head, key, name), collected(tail, key, name), t);
    assert(has_ts(c, t)) by {
        let q = choose|q: int|
            0 <= q < collected(tail, key, name).len() && #[trigger] collected(tail, key, name)[q].0
                == t;
        assert(c[collected(head, key, name).len() + q].0 == t);
    }
    assert(v[j].1@ == name);
    assert(is_merged(c, v[j].2@));
    lemma_merged_value(c, v[j].2@, t);
    let q = choose|q: int| 0 <= q < v[j].2@.len() && #[trigger] v[j].2@[q] == (t, last_value(c, t));
    assert(v[j].0.same_as(&mem[i].0));
    assert(v[j].2@[q] == (t, last_value(l, t)));
}

/// A merged list holds each timestamp of its source once, with the last value written.
pub proof fn lemma_merged_value(s: Seq<(u64, u64)>, r: Seq<(u64, u64)>, t: u64)
    requires
        is_merged(s, r),
        has_ts(s, t),
    ensures
        exists|q: int| 0 <= q < r.len() && #[trigger] r[q] == (t, last_value(s, t)),
{
    assert(has_ts(r, t));
    let q = choose|q: int| 0 <= q < r.len() && #[trigger] r[q].0 == t;
    assert(r[q].1 == last_value(s, r[q].0));
    assert(r[q] == (t, last_value(s, t)));
}

proof fn lemma_total_update(s: Seq<(SeriesKey, Seq<DataPoint>)>, i: int, p: DataPoint)
    requires
        0 <= i < s.len(),
    ensures
        total_of(s.update(i, (s[i].0, s[i].1.push(p)))) == total_of(s) + 1,
    decreases s.len(),
{
    let t = s.update(i, (s[i].0, s[i].1.push(p)));
    if i == s.len() - 1 {
        assert(t.drop_last() =~= s.drop_last());
    } else {
        lemma_total_update(s.drop_last(), i, p);
        assert(t.drop_last() =~= s.drop_last().update(i, (s[i].0, s[i].1.push(p))));
        assert(s.drop_last()[i] == s[i]);
    }
}

/// Every point of the series of `v`, series after series.
pub open spec fn all_points(v: Seq<(SeriesKey, Seq<DataPoint>)>) -> Seq<DataPoint>
    decreases v.len(),
{
    if v.len() == 0 {
        seq![]
    } else {
        all_points(v.drop_last()) + v.last().1
    }
}

impl MemTable {
    /// Adds a point to its series; the table holds one more point.
    pub fn insert_counted(&mut self, key: SeriesKey, point: DataPoint)
        requires
            old(self).wf(),
        ensures
            final(self).wf(),
            total_of(final(self)@) == total_of(old(self)@) + 1,
    {
        let ghost s = self@;
        self.insert(key, point);
        proof {
            if exists|i: int| 0 <= i < s.len() && (#[trigger] s[i]).0.same_as(&key) {
                let i = choose|i: int|
                    0 <= i < s.len() && (#[trigger] s[i]).0.same_as(&key) && self@ == s.update(
                        i,
                        (s[i].0, s[i].1.push(point)),
                    );
                lemma_total_update(s, i, point);
            } else {
                assert(self@.drop_last() =~= s);
            }
        }
    }

    /// What the log must hold after a flush succeeded: the records of every point still in
    /// the table, which are those written while the table file was built. Fails where a point
    /// does not fit its record.
    pub fn log_image(&self) -> (r: Result<Vec<u8>, crate::error::Error>)
        ensures
            r matches Ok(b) ==> b@ == crate::wal::log_bytes(
                crate::wal::views_of(all_points(self@)),
            ),
            r is Err ==> exists|i: int|
                0 <= i < all_points(self@).len() && !crate::wal::fits(
                    crate::wal::view_of(#[trigger] all_points(self@)[i]),
                ),
    {
        let mut out: Vec<u8> = Vec::new();
        let mut i: usize = 0;
        while i < self.series.len()
            invariant
                i <= self@.len(),
                self@.len() == self.series@.len(),
                out@ == crate::wal::log_bytes(crate::wal::views_of(all_points(self@.take(i as int)))),
                forall|q: int|
                    0 <= q < all_points(self@.take(i as int)).len() ==> crate::wal::fits(
                        crate::wal::view_of(#[trigger] all_points(self@.take(i as int))[q]),
                    ),
            decreases self.series.len() - i,
        {
            let pts = &self.series[i].1;
            let ghost base = all_points(self@.take(i as int));
            assert(self@.take(i as int + 1).drop_last() =~= self@.take(i as int));
            assert(self@[i as int].1 == pts@);
            assert(all_points(self@.take(i as int + 1)) == base + pts@);
            let mut j: usize = 0;
            while j < pts.len()
                invariant
                    i < self@.len(),
                    self@.len() == self.series@.len(),
                    self@[i as int].1 == pts@,
                    base == all_points(self@.take(i as int)),
                    all_points(self@.take(i as int + 1)) == base + pts@,
                    j <= pts@.len(),
                    out@ == crate::wal::log_bytes(crate::wal::views_of(base + pts@.take(j as int))),
                    forall|q: int|
                        0 <= q < (base + pts@.take(j as int)).len() ==> crate::wal::fits(
                            crate::wal::view_of(#[trigger] (base + pts@.take(j as int))[q]),
                        ),
                decreases pts.len() - j,
            {
                let ghost before = base + pts@.take(j as int);
                let ghost after = base + pts@.take(j as int + 1);
                assert(after =~= before.push(pts@[j as int]));
                assert(crate::wal::views_of(after).drop_last() =~= crate::wal::views_of(before));
                match crate::wal::encode_record(&pts[j], &mut out) {
                    Ok(()) => {},
                    Err(e) => {
                        proof {
                            let k = base.len() + j;
                            lemma_all_points_split(self@, i as int + 1);
                            let whole = all_points(self@);
                            assert(whole == base + pts@ + all_points_from(self@, i as int + 1));
                            assert(whole[k] == pts@[j as int]);
                            assert(!crate::wal::fits(crate::wal::view_of(whole[k])));
                        }
                        return Err(e);
                    },
                }
                proof {
                    assert forall|q: int| 0 <= q < after.len() implies crate::wal::fits(
                        crate::wal::view_of(#[trigger] after[q]),
                    ) by {
                        if q < before.len() {
                            assert(after[q] == before[q]);
                        }
                    }
                }
                j = j + 1;
            }
            assert(pts@.take(pts@.len() as int) =~= pts@);
            i = i + 1;
        }
        assert(self@.take(self@.len() as int) =~= self@);
        Ok(out)
    }
}

/// The points of the series of `v` from series `i` on.
pub open spec fn all_points_from(v: Seq<(SeriesKey, Seq<DataPoint>)>, i: int) -> Seq<DataPoint> {
    all_points(v.subrange(i, v.len() as int))
}

proof fn lemma_all_points_concat(a: Seq<(SeriesKey, Seq<DataPoint>)>, b: Seq<(SeriesKey, Seq<DataPoint>)>)
    ensures
        all_points(a + b) == all_points(a) + all_points(b),
    decreases b.len(),
{
    if b.len() == 0 {
        assert(a + b =~= a);
        assert(all_points(a) + all_points(b) =~= all_points(a));
    } else {
        assert((a + b).drop_last() =~= a + b.drop_last());
        lemma_all_points_concat(a, b.drop_last());
        assert(all_points(a) + all_points(b.drop_last()) + b.last().1 =~= all_points(a) + (
        all_points(b.drop_last()) + b.last().1));
    }
}

proof fn lemma_all_points_split(v: Seq<(SeriesKey, Seq<DataPoint>)>, i: int)
    requires
        0 <= i <= v.len(),
    ensures
        all_points(v) == all_points(v.take(i)) + all_points_from(v, i),
{
    assert(v =~= v.take(i) + v.subrange(i, v.len() as int));
    lemma_all_points_concat(v.take(i), v.subrange(i, v.len() as int));
}

proof fn lemma_total_first(s: Seq<(SeriesKey, Seq<DataPoint>)>)
    requires
        s.len() > 0,
    ensures
        total_of(s) == s[0].1.len() + total_of(s.drop_first()),
    decreases s.len(),
{
    if s.len() > 1 {
        lemma_total_first(s.drop_last());
        assert(s.drop_last().drop_first() =~= s.drop_first().drop_last());
        assert(s.drop_first().last() == s.last());
    } else {
        assert(s.drop_first() =~= Seq::<(SeriesKey, Seq<DataPoint>)>::empty());
        assert(s.drop_last() =~= Seq::<(SeriesKey, Seq<DataPoint>)>::empty());
    }
}

impl MemTable {
    /// Inserts every point of `series`, series by series, each in its order.
    fn insert_all(&mut self, series: Vec<(SeriesKey, Vec<DataPoint>)>)
        requires
            old(self).wf(),
        ensures
            final(self).wf(),
            total_of(final(self)@) == total_of(old(self)@) + total_of(series_view(series@)),
    {
        let mut rest = series;
        while rest.len() > 0
            invariant
                self.wf(),
                total_of(self@) + total_of(series_view(rest@)) == total_of(old(self)@)
                    + total_of(series_view(series@)),
            decreases rest.len(),
        {
            let ghost r0 = series_view(rest@);
            proof {
                lemma_total_first(r0);
            }
            let (key, mut pts) = rest.remove(0);
            assert(series_view(rest@) =~= r0.drop_first());
            assert(pts@ == r0[0].1);
            while pts.len() > 0
                invariant
                    self.wf(),
                    total_of(self@) + pts@.len() + total_of(series_view(rest@)) == total_of(
                        old(self)@,
                    ) + total_of(series_view(series@)),
                decreases pts.len(),
            {
                let p = pts.remove(0);
                self.insert_counted(key_clone(&key), p);
            }
        }
        assert(series_view(rest@) =~= Seq::<(SeriesKey, Seq<DataPoint>)>::empty());
    }

    /// Undoes the clearing of a flush that failed: the snapshot's points come back in front
    /// of those written since, so that later writes still come last.
    pub fn restore_snapshot(&mut self, snapshot: Vec<(SeriesKey, Vec<DataPoint>)>)
        requires
            old(self).wf(),
        ensures
            final(self).wf(),
            total_of(final(self)@) == total_of(series_view(snapshot@)) + total_of(old(self)@),
    {
        let newer = self.snapshot_and_clear();
        assert(total_of(self@) == 0);
        self.insert_all(snapshot);
        self.insert_all(newer);
    }
}

} // verus!
