//! The buckets of the forecast gathered in a map keyed by instant, as
//! chrono orders instants: by whole second, then by nanosecond.
use vstd::prelude::*;
use std::collections::BTreeMap;
use vstd::std_specs::iter::IteratorSpec;
use vstd::std_specs::cmp::OrdSpec;
use crate::time::UtcInstant;
use crate::weather::feed::{Row, RowView, rows_view};
use crate::weather::plan::{
    Bucket, BucketView, add_reading, instants, last_reading, lemma_last_reading_push,
    lemma_no_reading_without_row,
};

verus! {

broadcast use vstd::std_specs::btree::group_btree_axioms, vstd::laws_cmp::group_laws_cmp;

/// The key of instant `t`: its whole second, then its nanoseconds.
pub open spec fn key_of(t: UtcInstant) -> (i64, u32) {
    (t.secs, t.nanos)
}

/// The instant of key `k`.
pub open spec fn instant_of(k: (i64, u32)) -> UtcInstant {
    UtcInstant { secs: k.0, nanos: k.1 }
}

/// Key `a` comes before key `b`.
pub open spec fn key_before(a: (i64, u32), b: (i64, u32)) -> bool {
    a.0 < b.0 || (a.0 == b.0 && a.1 < b.1)
}

/// The bucket of instant `t` for `rows`: the last temperature and the last
/// symbol given for it.
pub open spec fn bucket_at(rows: Seq<RowView>, t: UtcInstant) -> BucketView {
    BucketView {
        time: t,
        temp: last_reading(rows, t, "Temperature"@),
        symbol: last_reading(rows, t, "WeatherSymbol3"@),
    }
}

/// The map holds one bucket per instant of a row, each with the last
/// readings given for its instant.
pub open spec fn time_map_of(m: Map<(i64, u32), Bucket>, rows: Seq<RowView>) -> bool {
    &&& forall|k: (i64, u32)| #[trigger] m.contains_key(k) <==> instants(rows).contains(instant_of(k))
    &&& forall|k: (i64, u32)| #[trigger] m.contains_key(k) ==> m[k]@ == bucket_at(rows, instant_of(k))
}

pub(crate) fn reading_into(b: &mut Bucket, r: &Row)
    ensures
        final(b)@ == add_reading(old(b)@, r@),
{
    if r.name == String::from_str("Temperature") {
        b.temp = Some(r.value.clone());
    } else if r.name == String::from_str("WeatherSymbol3") {
        b.symbol = Some(r.value.clone());
    }
}

proof fn lemma_filed(m: Map<(i64, u32), Bucket>, rows: Seq<RowView>, r: RowView, b: Bucket)
    requires
        time_map_of(m, rows),
        b@ == add_reading(
            if m.contains_key(key_of(r.time)) {
                m[key_of(r.time)]@
            } else {
                BucketView { time: r.time, temp: None, symbol: None }
            },
            r,
        ),
    ensures
        time_map_of(m.insert(key_of(r.time), b), rows.push(r)),
{
    let all = rows.push(r);
    let m2 = m.insert(key_of(r.time), b);
    reveal_strlit("Temperature");
    reveal_strlit("WeatherSymbol3");
    assert("Temperature"@ != "WeatherSymbol3"@) by {
        assert("Temperature"@.len() != "WeatherSymbol3"@.len());
    }
    assert forall|k: (i64, u32)| #[trigger] m2.contains_key(k) <==> instants(all).contains(instant_of(k)) by {
        if instants(rows).contains(instant_of(k)) {
            let j = choose|j: int| 0 <= j < rows.len() && #[trigger] rows[j].time == instant_of(k);
            assert(all[j] == rows[j]);
        }
        if instants(all).contains(instant_of(k)) {
            let j = choose|j: int| 0 <= j < all.len() && #[trigger] all[j].time == instant_of(k);
            if j < rows.len() {
                assert(all[j] == rows[j]);
            }
        }
        if k == key_of(r.time) {
            assert(all[rows.len() as int] == r);
        }
    }
    assert forall|k: (i64, u32)| #[trigger] m2.contains_key(k) implies m2[k]@ == bucket_at(all, instant_of(k)) by {
        lemma_last_reading_push(rows, r, instant_of(k), "Temperature"@);
        lemma_last_reading_push(rows, r, instant_of(k), "WeatherSymbol3"@);
        if k == key_of(r.time) {
            if !m.contains_key(k) {
                assert forall|j: int| 0 <= j < rows.len() implies (#[trigger] rows[j]).time != r.time by {
                    if rows[j].time == r.time {
                        assert(instants(rows).contains(instant_of(k)));
                    }
                }
                lemma_no_reading_without_row(rows, r.time, "Temperature"@);
                lemma_no_reading_without_row(rows, r.time, "WeatherSymbol3"@);
            }
        }
    }
}

/// Gathers the rows into a map from instant to bucket: one bucket per
/// instant of a row, each holding the last temperature and the last symbol
/// given for its instant.
pub(crate) fn gather(rows: &Vec<Row>) -> (m: BTreeMap<(i64, u32), Bucket>)
    ensures
        time_map_of(m@, rows_view(rows@)),
{
    let mut m: BTreeMap<(i64, u32), Bucket> = BTreeMap::new();
    let n = rows.len();
    let mut i: usize = 0;
    assert(time_map_of(m@, rows_view(rows@).take(0))) by {
        assert forall|k: (i64, u32)| #[trigger] m@.contains_key(k) <==> instants(rows_view(rows@).take(0)).contains(instant_of(k)) by {}
    }
    while i < n
        invariant
            i <= n,
            n == rows@.len(),
            time_map_of(m@, rows_view(rows@).take(i as int)),
        decreases n - i,
    {
        let r = &rows[i];
        let key = (r.time.secs, r.time.nanos);
        let ghost before = m@;
        let mut b = match m.remove(&key) {
            Some(b) => b,
            None => Bucket { time: r.time, temp: None, symbol: None },
        };
        reading_into(&mut b, r);
        let ghost filed = b;
        m.insert(key, b);
        proof {
            let p = rows_view(rows@).take(i as int);
            lemma_filed(before, p, r@, filed);
            assert(before.remove(key).insert(key, filed) =~= before.insert(key, filed));
            assert(rows_view(rows@).take(i + 1) =~= p.push(r@));
        }
        i = i + 1;
    }
    assert(rows_view(rows@).take(n as int) =~= rows_view(rows@));
    m
}

fn copy_bucket(b: &Bucket) -> (r: Bucket)
    ensures
        r@ == b@,
{
    let temp = match &b.temp {
        Some(s) => Some(s.clone()),
        None => None,
    };
    let symbol = match &b.symbol {
        Some(s) => Some(s.clone()),
        None => None,
    };
    Bucket { time: b.time, temp, symbol }
}

/// The buckets of the map in the map's order, with their keys: every key
/// once, each earlier than the next.
pub(crate) fn in_key_order(m: &BTreeMap<(i64, u32), Bucket>) -> (r: (Vec<Bucket>, Vec<(i64, u32)>))
    ensures
        r.1@.len() == r.0@.len(),
        forall|i: int| 0 <= i < r.0@.len() ==> m@.contains_key(#[trigger] r.1@[i]) && r.0@[i]@ == m@[r.1@[i]]@,
        forall|i: int, j: int| 0 <= i < j < r.0@.len() ==> key_before(#[trigger] r.1@[i], #[trigger] r.1@[j]),
        forall|k: (i64, u32)| #[trigger] m@.contains_key(k) ==> exists|i: int| 0 <= i < r.1@.len() && r.1@[i] == k,
{
    let iter = m.iter();
    let ghost init = iter.remaining();
    let ghost keys = init.map_values(|kv: (&(i64, u32), &Bucket)| *kv.0);
    assert(vstd::std_specs::btree::key_obeys_cmp_spec::<(i64, u32)>());
    assert(vstd::std_specs::btree::increasing_seq(keys));
    let mut out: Vec<Bucket> = Vec::new();
    let mut out_keys: Vec<(i64, u32)> = Vec::new();
    for kv in it: iter
        invariant
            it.seq() == init,
            out@.len() == it.index(),
            out_keys@.len() == it.index(),
            forall|i: int| 0 <= i < it.index() ==> (#[trigger] out@[i])@ == (*it.seq()[i].1)@,
            forall|i: int| 0 <= i < it.index() ==> #[trigger] out_keys@[i] == *it.seq()[i].0,
    {
        let (k, b) = kv;
        out.push(copy_bucket(b));
        out_keys.push(*k);
    }
    assert forall|i: int| 0 <= i < out@.len() implies m@.contains_key(#[trigger] out_keys@[i]) && out@[i]@ == m@[out_keys@[i]]@ by {
        assert(m@.contains_key(*init[i].0));
    }
    assert forall|i: int, j: int| 0 <= i < j < out@.len() implies key_before(#[trigger] out_keys@[i], #[trigger] out_keys@[j]) by {
        assert(keys[i] == out_keys@[i] && keys[j] == out_keys@[j]);
        assert(keys[i].cmp_spec(&keys[j]) is Less);
    }
    assert forall|k: (i64, u32)| #[trigger] m@.contains_key(k) implies exists|i: int| 0 <= i < out_keys@.len() && out_keys@[i] == k by {
        assert(init.contains((&k, &m@[k])));
        let i = choose|i: int| 0 <= i < init.len() && init[i] == (&k, &m@[k]);
        assert(out_keys@[i] == k);
    }
    (out, out_keys)
}

} // verus!
