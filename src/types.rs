use vstd::prelude::*;

verus! {

/// The mapping that a list of pairs denotes: where a key occurs twice, the later pair wins.
pub open spec fn pairs_map(s: Seq<(String, String)>) -> Map<Seq<char>, Seq<char>>
    decreases s.len(),
{
    if s.len() == 0 {
        Map::empty()
    } else {
        pairs_map(s.drop_last()).insert(s.last().0@, s.last().1@)
    }
}

/// The mapping from field names to value bits that a list of fields denotes; the later
/// pair wins.
pub open spec fn fields_map(s: Seq<(String, u64)>) -> Map<Seq<char>, u64>
    decreases s.len(),
{
    if s.len() == 0 {
        Map::empty()
    } else {
        fields_map(s.drop_last()).insert(s.last().0@, s.last().1)
    }
}

pub proof fn lemma_pairs_map_dom(s: Seq<(String, String)>, k: Seq<char>)
    ensures
        pairs_map(s).contains_key(k) <==> exists|i: int| 0 <= i < s.len() && #[trigger] s[i].0@ == k,
    decreases s.len(),
{
    if s.len() > 0 {
        lemma_pairs_map_dom(s.drop_last(), k);
        if pairs_map(s.drop_last()).contains_key(k) {
            let i = choose|i: int| 0 <= i < s.len() - 1 && #[trigger] s.drop_last()[i].0@ == k;
            assert(s[i].0@ == k);
        }
        if exists|i: int| 0 <= i < s.len() && #[trigger] s[i].0@ == k {
            let i = choose|i: int| 0 <= i < s.len() && #[trigger] s[i].0@ == k;
            if i < s.len() - 1 {
                assert(s.drop_last()[i].0@ == k);
            }
        }
    }
}

/// Looks a key up in a list of pairs; the last pair with that key wins.
pub fn lookup_pair<'a>(pairs: &'a Vec<(String, String)>, key: &String) -> (r: Option<&'a String>)
    ensures
        r is Some <==> pairs_map(pairs@).contains_key(key@),
        r matches Some(v) ==> v@ == pairs_map(pairs@)[key@],
{
    let mut i: usize = pairs.len();
    while i > 0
        invariant
            i <= pairs.len(),
            forall|j: int| i <= j < pairs.len() ==> #[trigger] pairs@[j].0@ != key@,
        decreases i,
    {
        if pairs[i - 1].0 == *key {
            proof {
                lemma_pairs_map_suffix(pairs@, i as int, key@);
            }
            return Some(&pairs[i - 1].1);
        }
        i = i - 1;
    }
    proof {
        lemma_pairs_map_dom(pairs@, key@);
    }
    None
}

/// Pairs after position `i` with other keys leave the value of `key` as it was at `i`.
proof fn lemma_pairs_map_suffix(s: Seq<(String, String)>, i: int, key: Seq<char>)
    requires
        1 <= i <= s.len(),
        s[i - 1].0@ == key,
        forall|j: int| i <= j < s.len() ==> #[trigger] s[j].0@ != key,
    ensures
        pairs_map(s).contains_key(key),
        pairs_map(s)[key] == s[i - 1].1@,
    decreases s.len(),
{
    if s.len() > i {
        assert(s.drop_last()[i - 1] == s[i - 1]);
        assert forall|j: int| i <= j < s.len() - 1 implies #[trigger] s.drop_last()[j].0@ != key by {
            assert(s.drop_last()[j] == s[j]);
        }
        lemma_pairs_map_suffix(s.drop_last(), i, key);
        assert(s.last().0@ != key);
    }
}

/// Sets `key` to `value` in a list of pairs: the last pair with that key is updated in
/// place, or a new pair is appended.
pub fn set_pair(pairs: &mut Vec<(String, String)>, key: String, value: String)
    ensures
        pairs_map(final(pairs)@) == pairs_map(old(pairs)@).insert(key@, value@),
{
    let mut i: usize = pairs.len();
    while i > 0
        invariant
            i <= pairs.len(),
            pairs@ == old(pairs)@,
            forall|j: int| i <= j < pairs.len() ==> #[trigger] pairs@[j].0@ != key@,
        decreases i,
    {
        if pairs[i - 1].0 == key {
            let ghost s = pairs@;
            let ghost p = (key, value);
            pairs.set(i - 1, (key, value));
            proof {
                lemma_pairs_map_update(s, i - 1, p);
            }
            return ;
        }
        i = i - 1;
    }
    pairs.push((key, value));
    assert(pairs@.drop_last() =~= old(pairs)@);
}

proof fn lemma_pairs_map_update(s: Seq<(String, String)>, i: int, p: (String, String))
    requires
        0 <= i < s.len(),
        p.0@ == s[i].0@,
        forall|j: int| i < j < s.len() ==> #[trigger] s[j].0@ != p.0@,
    ensures
        pairs_map(s.update(i, p)) == pairs_map(s).insert(p.0@, p.1@),
    decreases s.len(),
{
    let t = s.update(i, p);
    if i == s.len() - 1 {
        assert(t.drop_last() =~= s.drop_last());
        assert(pairs_map(t) =~= pairs_map(s).insert(p.0@, p.1@));
    } else {
        assert forall|j: int| i < j < s.len() - 1 implies #[trigger] s.drop_last()[j].0@ != p.0@ by {
            assert(s.drop_last()[j] == s[j]);
        }
        lemma_pairs_map_update(s.drop_last(), i, p);
        assert(t.drop_last() =~= s.drop_last().update(i, p));
        assert(s.last().0@ != p.0@);
        assert(pairs_map(t) =~= pairs_map(s).insert(p.0@, p.1@));
    }
}


pub proof fn lemma_fields_map_dom(s: Seq<(String, u64)>, k: Seq<char>)
    ensures
        fields_map(s).contains_key(k) <==> exists|i: int| 0 <= i < s.len() && #[trigger] s[i].0@ == k,
    decreases s.len(),
{
    if s.len() > 0 {
        lemma_fields_map_dom(s.drop_last(), k);
        if fields_map(s.drop_last()).contains_key(k) {
            let i = choose|i: int| 0 <= i < s.len() - 1 && #[trigger] s.drop_last()[i].0@ == k;
            assert(s[i].0@ == k);
        }
        if exists|i: int| 0 <= i < s.len() && #[trigger] s[i].0@ == k {
            let i = choose|i: int| 0 <= i < s.len() && #[trigger] s[i].0@ == k;
            if i < s.len() - 1 {
                assert(s.drop_last()[i].0@ == k);
            }
        }
    }
}

proof fn lemma_fields_map_suffix(s: Seq<(String, u64)>, i: int, key: Seq<char>)
    requires
        1 <= i <= s.len(),
        s[i - 1].0@ == key,
        forall|j: int| i <= j < s.len() ==> #[trigger] s[j].0@ != key,
    ensures
        fields_map(s).contains_key(key),
        fields_map(s)[key] == s[i - 1].1,
    decreases s.len(),
{
    if s.len() > i {
        assert(s.drop_last()[i - 1] == s[i - 1]);
        assert forall|j: int| i <= j < s.len() - 1 implies #[trigger] s.drop_last()[j].0@ != key by {
            assert(s.drop_last()[j] == s[j]);
        }
        lemma_fields_map_suffix(s.drop_last(), i, key);
        assert(s.last().0@ != key);
    }
}

/// Looks a field up; the last pair with that name wins.
pub fn lookup_field(fields: &Vec<(String, u64)>, key: &String) -> (r: Option<u64>)
    ensures
        r is Some <==> fields_map(fields@).contains_key(key@),
        r matches Some(v) ==> v == fields_map(fields@)[key@],
{
    let mut i: usize = fields.len();
    while i > 0
        invariant
            i <= fields.len(),
            forall|j: int| i <= j < fields.len() ==> #[trigger] fields@[j].0@ != key@,
        decreases i,
    {
        if fields[i - 1].0 == *key {
            proof {
                lemma_fields_map_suffix(fields@, i as int, key@);
            }
            return Some(fields[i - 1].1);
        }
        i = i - 1;
    }
    proof {
        lemma_fields_map_dom(fields@, key@);
    }
    None
}

proof fn lemma_fields_map_update(s: Seq<(String, u64)>, i: int, p: (String, u64))
    requires
        0 <= i < s.len(),
        p.0@ == s[i].0@,
        forall|j: int| i < j < s.len() ==> #[trigger] s[j].0@ != p.0@,
    ensures
        fields_map(s.update(i, p)) == fields_map(s).insert(p.0@, p.1),
    decreases s.len(),
{
    let t = s.update(i, p);
    if i == s.len() - 1 {
        assert(t.drop_last() =~= s.drop_last());
        assert(fields_map(t) =~= fields_map(s).insert(p.0@, p.1));
    } else {
        assert forall|j: int| i < j < s.len() - 1 implies #[trigger] s.drop_last()[j].0@ != p.0@ by {
            assert(s.drop_last()[j] == s[j]);
        }
        lemma_fields_map_update(s.drop_last(), i, p);
        assert(t.drop_last() =~= s.drop_last().update(i, p));
        assert(s.last().0@ != p.0@);
        assert(fields_map(t) =~= fields_map(s).insert(p.0@, p.1));
    }
}

/// Sets field `key` to `value`: the last pair with that name is updated in place, or a new
/// pair is appended.
pub fn set_field(fields: &mut Vec<(String, u64)>, key: String, value: u64)
    ensures
        fields_map(final(fields)@) == fields_map(old(fields)@).insert(key@, value),
{
    let mut i: usize = fields.len();
    while i > 0
        invariant
            i <= fields.len(),
            fields@ == old(fields)@,
            forall|j: int| i <= j < fields.len() ==> #[trigger] fields@[j].0@ != key@,
        decreases i,
    {
        if fields[i - 1].0 == key {
            let ghost s = fields@;
            let ghost p = (key, value);
            fields.set(i - 1, (key, value));
            proof {
                lemma_fields_map_update(s, i - 1, p);
            }
            return ;
        }
        i = i - 1;
    }
    fields.push((key, value));
    assert(fields@.drop_last() =~= old(fields)@);
}

/// One measurement: a timestamp, tags that classify it and named fields that carry the
/// bits of its 64-bit float values.
#[derive(Clone, Debug)]
pub struct DataPoint {
    pub timestamp: u64,
    pub tags: Vec<(String, String)>,
    pub fields: Vec<(String, u64)>,
}

impl DataPoint {
    pub open spec fn tag_map(&self) -> Map<Seq<char>, Seq<char>> {
        pairs_map(self.tags@)
    }

    pub open spec fn field_map(&self) -> Map<Seq<char>, u64> {
        fields_map(self.fields@)
    }

    pub fn new(timestamp: u64) -> (r: Self)
        ensures
            r.timestamp == timestamp,
            r.tags@.len() == 0,
            r.fields@.len() == 0,
    {
        DataPoint { timestamp, tags: Vec::new(), fields: Vec::new() }
    }

    pub fn add_tag(&mut self, key: &str, value: &str) -> (r: &mut Self)
        ensures
            r.timestamp == old(self).timestamp,
            r.fields == old(self).fields,
            r.tag_map() == old(self).tag_map().insert(key@, value@),
            *final(self) == *final(r),
    {
        set_pair(&mut self.tags, key.to_string(), value.to_string());
        self
    }

    /// Sets a field to the bits of a 64-bit float value.
    pub fn add_field(&mut self, key: &str, value: u64) -> (r: &mut Self)
        ensures
            r.timestamp == old(self).timestamp,
            r.tags == old(self).tags,
            r.field_map() == old(self).field_map().insert(key@, value),
            *final(self) == *final(r),
    {
        set_field(&mut self.fields, key.to_string(), value);
        self
    }
}

/// The identity of a time series: a measurement name and a set of tags. Two keys name the
/// same series when their measurements and tag mappings agree, whatever the order of the
/// tags.
#[derive(Clone, Debug)]
pub struct SeriesKey {
    pub measurement: String,
    pub tags: Vec<(String, String)>,
}

impl SeriesKey {
    pub open spec fn tag_map(&self) -> Map<Seq<char>, Seq<char>> {
        pairs_map(self.tags@)
    }

    /// The same series as `other`.
    pub open spec fn same_as(&self, other: &SeriesKey) -> bool {
        self.measurement@ == other.measurement@ && self.tag_map() == other.tag_map()
    }

    pub fn new(measurement: &str) -> (r: Self)
        ensures
            r.measurement@ == measurement@,
            r.tags@.len() == 0,
    {
        SeriesKey { measurement: measurement.to_string(), tags: Vec::new() }
    }

    pub fn add_tag(&mut self, key: &str, value: &str) -> (r: &mut Self)
        ensures
            r.measurement == old(self).measurement,
            r.tag_map() == old(self).tag_map().insert(key@, value@),
            *final(self) == *final(r),
    {
        set_pair(&mut self.tags, key.to_string(), value.to_string());
        self
    }

    /// Whether `other` names the same series.
    pub fn same_series(&self, other: &SeriesKey) -> (r: bool)
        ensures
            r == self.same_as(other),
    {
        if self.measurement != other.measurement {
            return false;
        }
        let a = subset_of(&self.tags, &other.tags);
        let b = subset_of(&other.tags, &self.tags);
        proof {
            if a && b {
                lemma_map_within_both(self.tag_map(), other.tag_map());
            }
        }
        a && b
    }
}

impl PartialEq for SeriesKey {
    fn eq(&self, other: &SeriesKey) -> (r: bool) {
        self.same_series(other)
    }
}

impl vstd::std_specs::cmp::PartialEqSpecImpl for SeriesKey {
    open spec fn obeys_eq_spec() -> bool {
        true
    }

    open spec fn eq_spec(&self, other: &SeriesKey) -> bool {
        self.same_as(other)
    }
}

/// Every key of `a`'s mapping is mapped by `b` to the same value.
pub open spec fn map_within(a: Map<Seq<char>, Seq<char>>, b: Map<Seq<char>, Seq<char>>) -> bool {
    forall|k: Seq<char>| #[trigger] a.contains_key(k) ==> b.contains_key(k) && b[k] == a[k]
}

/// Whether every pair that `a` denotes is also denoted by `b`.
pub fn subset_of(a: &Vec<(String, String)>, b: &Vec<(String, String)>) -> (r: bool)
    ensures
        r == map_within(pairs_map(a@), pairs_map(b@)),
{
    let mut i: usize = 0;
    while i < a.len()
        invariant
            i <= a.len(),
            forall|j: int|
                0 <= j < i ==> pairs_map(b@).contains_key(#[trigger] a@[j].0@) && pairs_map(
                    b@,
                )[a@[j].0@] == pairs_map(a@)[a@[j].0@],
        decreases a.len() - i,
    {
        let key = &a[i].0;
        proof {
            lemma_pairs_map_dom(a@, key@);
        }
        let mine = lookup_pair(a, key);
        let theirs = lookup_pair(b, key);
        match (mine, theirs) {
            (Some(x), Some(y)) => {
                if *x != *y {
                    return false;
                }
            },
            _ => {
                return false;
            },
        }
        i = i + 1;
    }
    proof {
        assert forall|k: Seq<char>| #[trigger] pairs_map(a@).contains_key(k) implies pairs_map(
            b@,
        ).contains_key(k) && pairs_map(b@)[k] == pairs_map(a@)[k] by {
            lemma_pairs_map_dom(a@, k);
            let j = choose|j: int| 0 <= j < a@.len() && #[trigger] a@[j].0@ == k;
        }
    }
    true
}

proof fn lemma_map_within_both(a: Map<Seq<char>, Seq<char>>, b: Map<Seq<char>, Seq<char>>)
    requires
        map_within(a, b),
        map_within(b, a),
    ensures
        a == b,
{
    assert(a =~= b);
}

/// Which series, which time range and which fields a query asks for.
#[derive(Debug)]
pub struct QueryFilter {
    /// The measurement asked for; every measurement where it is `None`.
    pub measurement: Option<String>,
    /// The inclusive range of timestamps.
    pub time_range: (u64, u64),
    /// Tags that a series must carry, with these values.
    pub tags: Vec<(String, String)>,
    /// The fields asked for; every field where it is empty.
    pub fields: Vec<String>,
}

impl Clone for QueryFilter {
    fn clone(&self) -> (r: Self) {
        let measurement = match &self.measurement {
            Some(m) => Some(m.clone()),
            None => None,
        };
        let mut tags: Vec<(String, String)> = Vec::new();
        let mut i: usize = 0;
        while i < self.tags.len()
            decreases self.tags.len() - i,
        {
            tags.push((self.tags[i].0.clone(), self.tags[i].1.clone()));
            i = i + 1;
        }
        let mut fields: Vec<String> = Vec::new();
        let mut j: usize = 0;
        while j < self.fields.len()
            decreases self.fields.len() - j,
        {
            fields.push(self.fields[j].clone());
            j = j + 1;
        }
        QueryFilter { measurement, time_range: self.time_range, tags, fields }
    }
}

impl QueryFilter {
    pub open spec fn tag_map(&self) -> Map<Seq<char>, Seq<char>> {
        pairs_map(self.tags@)
    }

    /// The series that `key` names is one that the filter asks for.
    pub open spec fn selects(&self, key: &SeriesKey) -> bool {
        &&& self.measurement matches Some(m) ==> m@ == key.measurement@
        &&& map_within(self.tag_map(), key.tag_map())
    }

    /// The filter asks for field `name`.
    pub open spec fn wants_field(&self, name: Seq<char>) -> bool {
        self.fields@.len() == 0 || exists|i: int|
            0 <= i < self.fields@.len() && #[trigger] self.fields@[i]@ == name
    }

    pub fn new(start: u64, end: u64) -> (r: Self)
        ensures
            r.measurement is None,
            r.time_range == (start, end),
            r.tags@.len() == 0,
            r.fields@.len() == 0,
    {
        QueryFilter { measurement: None, time_range: (start, end), tags: Vec::new(), fields: Vec::new() }
    }

    pub fn measurement(self, measurement: &str) -> (r: Self)
        ensures
            r.measurement matches Some(m) && m@ == measurement@,
            r.time_range == self.time_range,
            r.tags == self.tags,
            r.fields == self.fields,
    {
        QueryFilter { measurement: Some(measurement.to_string()), ..self }
    }

    pub fn add_tag(self, key: &str, value: &str) -> (r: Self)
        ensures
            r.measurement == self.measurement,
            r.time_range == self.time_range,
            r.tag_map() == self.tag_map().insert(key@, value@),
            r.fields == self.fields,
    {
        let mut r = self;
        set_pair(&mut r.tags, key.to_string(), value.to_string());
        r
    }

    pub fn add_field(self, field: &str) -> (r: Self)
        ensures
            r.measurement == self.measurement,
            r.time_range == self.time_range,
            r.tags == self.tags,
            r.fields@.len() == self.fields@.len() + 1,
            r.fields@.drop_last() == self.fields@,
            r.fields@.last()@ == field@,
    {
        let mut r = self;
        r.fields.push(field.to_string());
        assert(r.fields@.drop_last() =~= self.fields@);
        r
    }

    /// Whether the filter asks for the series that `key` names.
    pub fn matches_series(&self, key: &SeriesKey) -> (r: bool)
        ensures
            r == self.selects(key),
    {
        match &self.measurement {
            Some(m) => {
                if *m != key.measurement {
                    return false;
                }
            },
            None => {},
        }
        subset_of(&self.tags, &key.tags)
    }

    /// Whether the filter asks for field `name`.
    pub fn includes_field(&self, name: &String) -> (r: bool)
        ensures
            r == self.wants_field(name@),
    {
        if self.fields.len() == 0 {
            return true;
        }
        let mut i: usize = 0;
        while i < self.fields.len()
            invariant
                i <= self.fields.len(),
                forall|j: int| 0 <= j < i ==> #[trigger] self.fields@[j]@ != name@,
            decreases self.fields.len() - i,
        {
            if self.fields[i] == *name {
                return true;
            }
            i = i + 1;
        }
        false
    }
}


/// The pairs of a list as plain values.
pub open spec fn pairs_view(s: Seq<(String, String)>) -> Seq<(Seq<char>, Seq<char>)> {
    s.map_values(|t: (String, String)| (t.0@, t.1@))
}

/// Lists of pairs with the same views denote the same mapping.
pub proof fn lemma_pairs_map_views(a: Seq<(String, String)>, b: Seq<(String, String)>)
    requires
        pairs_view(a) == pairs_view(b),
    ensures
        pairs_map(a) == pairs_map(b),
    decreases a.len(),
{
    let va = pairs_view(a);
    let vb = pairs_view(b);
    assert(va.len() == a.len() && vb.len() == b.len());
    if a.len() > 0 {
        assert(pairs_view(a.drop_last()) =~= va.drop_last());
        assert(pairs_view(b.drop_last()) =~= vb.drop_last());
        lemma_pairs_map_views(a.drop_last(), b.drop_last());
        assert(va[a.len() - 1] == vb[b.len() - 1]);
    }
}


/// `a` comes before `b` from position `i` on, comparing characters by code point; a proper
/// prefix comes first. This is the order of Rust's `str` comparison.
pub open spec fn key_less_at(a: Seq<char>, b: Seq<char>, i: int) -> bool
    decreases a.len() - i,
{
    if i < 0 || i >= a.len() {
        0 <= i < b.len()
    } else if i >= b.len() {
        false
    } else if a[i] != b[i] {
        (a[i] as u32) < (b[i] as u32)
    } else {
        key_less_at(a, b, i + 1)
    }
}

pub open spec fn key_less(a: Seq<char>, b: Seq<char>) -> bool {
    key_less_at(a, b, 0)
}

/// Two different strings are ordered one way or the other.
proof fn lemma_key_less_total(a: Seq<char>, b: Seq<char>, i: int)
    requires
        0 <= i <= a.len(),
        i <= b.len(),
        a.subrange(i, a.len() as int) != b.subrange(i, b.len() as int),
    ensures
        key_less_at(a, b, i) || key_less_at(b, a, i),
    decreases a.len() - i,
{
    if i < a.len() && i < b.len() && a[i] == b[i] {
        if a.subrange(i + 1, a.len() as int) == b.subrange(i + 1, b.len() as int) {
            assert(a.subrange(i, a.len() as int) =~= seq![a[i]] + a.subrange(i + 1, a.len() as int));
            assert(b.subrange(i, b.len() as int) =~= seq![b[i]] + b.subrange(i + 1, b.len() as int));
        }
        lemma_key_less_total(a, b, i + 1);
    } else if i < a.len() && i < b.len() {
        vstd::utf8::char_u32_cast(a[i], a[i] as u32);
        vstd::utf8::char_u32_cast(b[i], b[i] as u32);
        assert((a[i] as u32) != (b[i] as u32));
    } else if i == a.len() && i == b.len() {
        assert(a.subrange(i, a.len() as int) =~= b.subrange(i, b.len() as int));
    }
}

fn chars_less(a: &str, b: &str) -> (r: bool)
    ensures
        r == key_less(a@, b@),
{
    let n = a.unicode_len();
    let m = b.unicode_len();
    let mut i: usize = 0;
    while i < n && i < m
        invariant
            n == a@.len(),
            m == b@.len(),
            i <= n,
            i <= m,
            key_less_at(a@, b@, i as int) == key_less(a@, b@),
        decreases n - i,
    {
        let ca = a.get_char(i);
        let cb = b.get_char(i);
        if ca != cb {
            return (ca as u32) < (cb as u32);
        }
        i = i + 1;
    }
    i < m && i == n
}

/// Tag pairs in ascending key order, each key once.
pub open spec fn sorted_listing(ps: Seq<(Seq<char>, Seq<char>)>) -> bool {
    forall|i: int| 0 <= i < ps.len() - 1 ==> key_less(#[trigger] ps[i].0, ps[i + 1].0)
}

/// `ps` lists exactly the pairs of `m`.
pub open spec fn lists_map(ps: Seq<(Seq<char>, Seq<char>)>, m: Map<Seq<char>, Seq<char>>) -> bool {
    &&& forall|a: int, b: int| 0 <= a < b < ps.len() ==> (#[trigger] ps[a]).0 != (#[trigger] ps[b]).0
    &&& forall|i: int| 0 <= i < ps.len() ==> m.contains_key((#[trigger] ps[i]).0) && m[ps[i].0] == ps[i].1
    &&& forall|k: Seq<char>| #[trigger] m.contains_key(k) ==> exists|i: int| 0 <= i < ps.len() && (#[trigger] ps[i]).0 == k
}

/// `,key=value` for each pair, in order.
pub open spec fn joined(ps: Seq<(Seq<char>, Seq<char>)>) -> Seq<char>
    decreases ps.len(),
{
    if ps.len() == 0 {
        seq![]
    } else {
        joined(ps.drop_last()) + seq![','] + ps.last().0 + seq!['='] + ps.last().1
    }
}

/// Where `s` lists the pairs of `m` in order, inserting a new key at `q` (between smaller and
/// larger keys) lists the pairs of `m` with that key added.
#[verifier::rlimit(100)]
proof fn lemma_listing_insert(
    s: Seq<(Seq<char>, Seq<char>)>,
    m: Map<Seq<char>, Seq<char>>,
    q: int,
    k: Seq<char>,
    v: Seq<char>,
)
    requires
        sorted_listing(s),
        lists_map(s, m),
        !m.contains_key(k),
        0 <= q <= s.len(),
        q > 0 ==> key_less(s[q - 1].0, k),
        q < s.len() ==> key_less(k, s[q].0),
    ensures
        sorted_listing(s.insert(q, (k, v))),
        lists_map(s.insert(q, (k, v)), m.insert(k, v)),
{
    let t = s.insert(q, (k, v));
    assert forall|i: int| 0 <= i < t.len() - 1 implies key_less(#[trigger] t[i].0, t[i + 1].0) by {
        if i < q - 1 {
            assert(t[i] == s[i] && t[i + 1] == s[i + 1]);
        } else if i == q - 1 {
        } else if i == q {
        } else {
            assert(t[i] == s[i - 1] && t[i + 1] == s[i]);
        }
    }
    assert forall|i: int| 0 <= i < t.len() implies m.insert(k, v).contains_key((#[trigger] t[i]).0)
        && m.insert(k, v)[t[i].0] == t[i].1 by {
        if i < q {
            assert(t[i] == s[i]);
        } else if i > q {
            assert(t[i] == s[i - 1]);
        }
    }
    assert forall|a: int, b: int| 0 <= a < b < t.len() implies (#[trigger] t[a]).0 != (
    #[trigger] t[b]).0 by {
        let sa = if a < q { a } else { a - 1 };
        let sb = if b < q { b } else { b - 1 };
        if a != q && b != q {
            assert(t[a] == s[sa] && t[b] == s[sb]);
        } else if a == q {
            assert(t[b] == s[sb]);
        } else {
            assert(t[a] == s[sa]);
        }
    }
    assert forall|x: Seq<char>| #[trigger] m.insert(k, v).contains_key(x) implies exists|i: int|
        0 <= i < t.len() && (#[trigger] t[i]).0 == x by {
        if x == k {
            assert(t[q].0 == k);
        } else {
            let j = choose|j: int| 0 <= j < s.len() && (#[trigger] s[j]).0 == x;
            if j < q {
                assert(t[j] == s[j]);
            } else {
                assert(t[j + 1] == s[j]);
            }
        }
    }
}

impl SeriesKey {
    /// The measurement followed by `,key=value` for each tag in ascending key order: the same
    /// string for every key of the same series.
    pub fn to_canonical_string(&self) -> (r: String)
        ensures
            exists|ps: Seq<(Seq<char>, Seq<char>)>|
                sorted_listing(ps) && #[trigger] lists_map(ps, self.tag_map()) && r@
                    == self.measurement@ + joined(ps),
    {
        let mut sorted: Vec<(String, String)> = Vec::new();
        let mut i: usize = 0;
        assert(pairs_view(sorted@) =~= Seq::<(Seq<char>, Seq<char>)>::empty());
        assert(pairs_map(self.tags@.take(0)) =~= Map::<Seq<char>, Seq<char>>::empty());
        while i < self.tags.len()
            invariant
                i <= self.tags@.len(),
                sorted_listing(pairs_view(sorted@)),
                lists_map(pairs_view(sorted@), pairs_map(self.tags@.take(i as int))),
            decreases self.tags.len() - i,
        {
            let ghost s = pairs_view(sorted@);
            let ghost m = pairs_map(self.tags@.take(i as int));
            let key = &self.tags[i].0;
            let value = &self.tags[i].1;
            assert(self.tags@.take(i as int + 1).drop_last() =~= self.tags@.take(i as int));
            assert(pairs_map(self.tags@.take(i as int + 1)) == m.insert(key@, value@));
            let mut q: usize = 0;
            while q < sorted.len() && chars_less(sorted[q].0.as_str(), key.as_str())
                invariant
                    q <= sorted@.len(),
                    s == pairs_view(sorted@),
                    forall|j: int| 0 <= j < q ==> key_less(#[trigger] s[j].0, key@),
                decreases sorted.len() - q,
            {
                q = q + 1;
            }
            if q < sorted.len() && sorted[q].0 == *key {
                sorted.set(q, (key.clone(), value.clone()));
                proof {
                    let t = pairs_view(sorted@);
                    assert(t =~= s.update(q as int, (key@, value@)));
                    assert forall|j: int| 0 <= j < t.len() - 1 implies key_less(
                        #[trigger] t[j].0,
                        t[j + 1].0,
                    ) by {
                        assert(t[j].0 == s[j].0 && t[j + 1].0 == s[j + 1].0);
                    }
                    assert forall|a: int, b: int| 0 <= a < b < t.len() implies (#[trigger] t[a]).0
                        != (#[trigger] t[b]).0 by {
                        assert(t[a].0 == s[a].0 && t[b].0 == s[b].0);
                    }
                    assert forall|j: int| 0 <= j < t.len() implies m.insert(key@, value@).contains_key(
                        (#[trigger] t[j]).0,
                    ) && m.insert(key@, value@)[t[j].0] == t[j].1 by {
                        if j != q {
                            assert(t[j] == s[j]);
                            assert(s[j].0 != s[q as int].0);
                        }
                    }
                    assert forall|x: Seq<char>| #[trigger] m.insert(key@, value@).contains_key(x)
                        implies exists|j: int| 0 <= j < t.len() && (#[trigger] t[j]).0 == x by {
                        if x == key@ {
                            assert(t[q as int].0 == x);
                        } else {
                            let j = choose|j: int| 0 <= j < s.len() && (#[trigger] s[j]).0 == x;
                            assert(t[j].0 == x);
                        }
                    }
                }
            } else {
                proof {
                    if m.contains_key(key@) {
                        let j = choose|j: int| 0 <= j < s.len() && (#[trigger] s[j]).0 == key@;
                        if j < q {
                            assert(key_less(s[j].0, key@));
                            lemma_key_less_irreflexive(key@, 0);
                        } else {
                            lemma_sorted_from(s, q as int, j);
                        }
                    }
                    if q < s.len() {
                        assert(s[q as int].0 != key@);
                        assert(s[q as int].0.subrange(0, s[q as int].0.len() as int) =~= s[q as int].0);
                        assert(key@.subrange(0, key@.len() as int) =~= key@);
                        lemma_key_less_total(key@, s[q as int].0, 0);
                    }
                }
                sorted.insert(q, (key.clone(), value.clone()));
                proof {
                    assert(pairs_view(sorted@) =~= s.insert(q as int, (key@, value@)));
                    lemma_listing_insert(s, m, q as int, key@, value@);
                }
            }
            i = i + 1;
        }
        assert(self.tags@.take(self.tags@.len() as int) =~= self.tags@);
        let mut out = self.measurement.clone();
        let mut j: usize = 0;
        proof {
            reveal_strlit(",");
            reveal_strlit("=");
        }
        while j < sorted.len()
            invariant
            j <= sorted@.len(),
                ","@ == seq![','],
                "="@ == seq!['='],
                out@ == self.measurement@ + joined(pairs_view(sorted@).take(j as int)),
            decreases sorted.len() - j,
        {
            let ghost before = out@;
            out.append(",");
            out.append(sorted[j].0.as_str());
            out.append("=");
            out.append(sorted[j].1.as_str());
            proof {
                let ps = pairs_view(sorted@);
                assert(ps.take(j as int + 1).drop_last() =~= ps.take(j as int));
                assert(ps.take(j as int + 1).last() == ps[j as int]);
                assert(out@ =~= self.measurement@ + joined(ps.take(j as int + 1)));
            }
            j = j + 1;
        }
        assert(pairs_view(sorted@).take(sorted@.len() as int) =~= pairs_view(sorted@));
        assert(sorted_listing(pairs_view(sorted@)) && lists_map(pairs_view(sorted@), self.tag_map())
            && out@ == self.measurement@ + joined(pairs_view(sorted@)));
        out
    }
}

proof fn lemma_key_less_irreflexive(a: Seq<char>, i: int)
    requires
        0 <= i <= a.len(),
    ensures
        !key_less_at(a, a, i),
    decreases a.len() - i,
{
    if i < a.len() {
        lemma_key_less_irreflexive(a, i + 1);
    }
}

proof fn lemma_key_less_trans(a: Seq<char>, b: Seq<char>, c: Seq<char>, i: int)
    requires
        0 <= i,
        key_less_at(a, b, i),
        key_less_at(b, c, i),
    ensures
        key_less_at(a, c, i),
    decreases a.len() - i,
{
    if i < a.len() && i < b.len() && i < c.len() && a[i] == b[i] && b[i] == c[i] {
        lemma_key_less_trans(a, b, c, i + 1);
    }
}

/// In a sorted listing, a later key is not smaller than an earlier one.
proof fn lemma_sorted_from(s: Seq<(Seq<char>, Seq<char>)>, q: int, j: int)
    requires
        sorted_listing(s),
        0 <= q <= j < s.len(),
    ensures
        q == j || key_less(s[q].0, s[j].0),
    decreases j - q,
{
    if q < j {
        lemma_sorted_from(s, q + 1, j);
        if q + 1 < j {
            lemma_key_less_trans(s[q].0, s[q + 1].0, s[j].0, 0);
        }
    }
}

} // verus!
