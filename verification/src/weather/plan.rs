//! Turning feed rows into the forecast the widget shows: a reading for
//! "now", short-horizon readings two, four and six hours ahead, and
//! per-day summaries for today, tomorrow and the day after in
//! Europe/Helsinki local time.
//!
//! Rows are first gathered into one bucket per instant, in a map keyed by
//! instant, and read out in time order. Temperatures and weather symbols
//! stay as the decimal text the feed carried; turning that text into
//! numbers, the daily minimum and maximum and the rounding of symbols to
//! condition codes are left to whoever holds floating-point values.
use vstd::prelude::*;
use crate::text::{capitalised, decimal, push_decimal, titlecase};
use crate::time::{
    UtcInstant, chrono_instant, instant_before, hours_after, add_hours,
    chrono_seconds_between, seconds_between, helsinki_day_number, helsinki_day,
    helsinki_local_utc, helsinki_local_to_utc, weekday_name, weekday_of_day, weekday_label_local,
    utc_day, in_chrono_range, CHRONO_MIN_SECS, CHRONO_MAX_SECS,
};
use crate::weather::feed::{Row, RowView, rows_view};
use crate::weather::bucket_map::{gather, in_key_order, time_map_of, bucket_at, key_of, instant_of, key_before};

verus! {

/// The readings at one instant: the temperature and weather symbol text,
/// when the feed had them.
pub struct Bucket {
    pub time: UtcInstant,
    pub temp: Option<String>,
    pub symbol: Option<String>,
}

/// A bucket as plain values.
pub struct BucketView {
    pub time: UtcInstant,
    pub temp: Option<Seq<char>>,
    pub symbol: Option<Seq<char>>,
}

/// The view of an optional text.
pub open spec fn text_view(o: Option<String>) -> Option<Seq<char>> {
    match o {
        Some(s) => Some(s@),
        None => None,
    }
}

impl View for Bucket {
    type V = BucketView;

    open spec fn view(&self) -> BucketView {
        BucketView { time: self.time, temp: text_view(self.temp), symbol: text_view(self.symbol) }
    }
}

/// The buckets of a vector, as plain values.
pub open spec fn buckets_view(bs: Seq<Bucket>) -> Seq<BucketView> {
    bs.map_values(|b: Bucket| b@)
}

/// A row's value recorded in a bucket: `Temperature` and `WeatherSymbol3`
/// rows set their reading; rows of other parameters leave it as it was.
pub open spec fn add_reading(b: BucketView, r: RowView) -> BucketView {
    if r.name == "Temperature"@ {
        BucketView { temp: Some(r.value), ..b }
    } else if r.name == "WeatherSymbol3"@ {
        BucketView { symbol: Some(r.value), ..b }
    } else {
        b
    }
}

/// `p` is where instant `t` belongs in `bs`: every bucket before `p` is
/// earlier than `t`, and the bucket at `p`, if any, is not.
pub open spec fn is_slot(bs: Seq<BucketView>, t: UtcInstant, p: int) -> bool {
    &&& 0 <= p <= bs.len()
    &&& forall|j: int| 0 <= j < p ==> instant_before(#[trigger] bs[j].time, t)
    &&& p < bs.len() ==> !instant_before(bs[p].time, t)
}

/// The place of instant `t` in `bs`.
pub open spec fn slot_of(bs: Seq<BucketView>, t: UtcInstant) -> int {
    choose|p: int| is_slot(bs, t, p)
}

/// A row filed into the buckets: into the bucket of its instant if there
/// is one, else into a new bucket put in its place.
pub open spec fn file_row(bs: Seq<BucketView>, r: RowView) -> Seq<BucketView> {
    let p = slot_of(bs, r.time);
    if p < bs.len() && bs[p].time == r.time {
        bs.update(p, add_reading(bs[p], r))
    } else {
        bs.insert(p, add_reading(BucketView { time: r.time, temp: None, symbol: None }, r))
    }
}

/// The buckets of `rows`, filed in order.
pub open spec fn bucket_rows(rows: Seq<RowView>) -> Seq<BucketView>
    decreases rows.len(),
{
    if rows.len() == 0 {
        Seq::empty()
    } else {
        file_row(bucket_rows(rows.drop_last()), rows.last())
    }
}

/// Every bucket's instant is one chrono can work with.
pub open spec fn buckets_ok(bs: Seq<BucketView>) -> bool {
    forall|i: int| 0 <= i < bs.len() ==> chrono_instant(#[trigger] bs[i].time)
}

proof fn lemma_key_order_is_bucketing(rows: Seq<RowView>, m: Map<(i64, u32), Bucket>, a: Seq<BucketView>, keys: Seq<(i64, u32)>)
    requires
        time_map_of(m, rows),
        keys.len() == a.len(),
        forall|i: int| 0 <= i < a.len() ==> m.contains_key(#[trigger] keys[i]) && a[i] == m[keys[i]]@,
        forall|i: int, j: int| 0 <= i < j < a.len() ==> key_before(#[trigger] keys[i], #[trigger] keys[j]),
        forall|k: (i64, u32)| #[trigger] m.contains_key(k) ==> exists|i: int| 0 <= i < keys.len() && keys[i] == k,
    ensures
        a == bucket_rows(rows),
{
    let b = bucket_rows(rows);
    assert forall|i: int| 0 <= i < a.len() implies #[trigger] a[i] == bucket_at(rows, instant_of(keys[i])) by {
        assert(m.contains_key(keys[i]));
    }
    assert(strictly_sorted(a)) by {
        reveal(strictly_sorted);
        assert forall|i: int, j: int| 0 <= i < j < a.len() implies instant_before(#[trigger] a[i].time, #[trigger] a[j].time) by {
            assert(a[i] == bucket_at(rows, instant_of(keys[i])));
            assert(a[j] == bucket_at(rows, instant_of(keys[j])));
            assert(key_before(keys[i], keys[j]));
        }
    }
    assert forall|t: UtcInstant| bucket_instants(a).contains(t) implies instants(rows).contains(t) by {
        let i = choose|i: int| 0 <= i < a.len() && #[trigger] a[i].time == t;
        assert(a[i] == bucket_at(rows, instant_of(keys[i])));
        assert(m.contains_key(keys[i]));
    }
    assert forall|t: UtcInstant| instants(rows).contains(t) implies bucket_instants(a).contains(t) by {
        assert(instant_of(key_of(t)) == t);
        assert(m.contains_key(key_of(t)));
        let i = choose|i: int| 0 <= i < keys.len() && keys[i] == key_of(t);
        assert(a[i] == bucket_at(rows, instant_of(keys[i])));
        assert(a[i].time == t);
    }
    assert(bucket_instants(a) =~= instants(rows));
    law_buckets_are_a_time_map(rows);
    lemma_bucket_instants_are_row_instants(rows);
    lemma_sorted_instants_line_up(a, b);
    assert forall|i: int| 0 <= i < a.len() implies #[trigger] a[i] == b[i] by {
        reveal(readings_are_last);
        assert(a[i] == bucket_at(rows, instant_of(keys[i])));
        assert(a[i].time == b[i].time);
    }
    assert(a =~= b);
}

/// Gathers the rows into one bucket per instant, in time order: a map from
/// instant to bucket, read out in the map's order.
pub fn bucket_rows_of(rows: &Vec<Row>) -> (bs: Vec<Bucket>)
    requires
        forall|i: int| 0 <= i < rows@.len() ==> chrono_instant(#[trigger] rows@[i].time),
    ensures
        buckets_view(bs@) == bucket_rows(rows_view(rows@)),
        buckets_ok(buckets_view(bs@)),
{
    let m = gather(rows);
    let (bs, keys) = in_key_order(&m);
    proof {
        let rv = rows_view(rows@);
        let a = buckets_view(bs@);
        assert forall|i: int| 0 <= i < a.len() implies m@.contains_key(#[trigger] keys@[i]) && a[i] == m@[keys@[i]]@ by {
            assert(a[i] == bs@[i]@);
        }
        lemma_key_order_is_bucketing(rv, m@, a, keys@);
        law_buckets_are_a_time_map(rv);
        assert forall|i: int| 0 <= i < a.len() implies chrono_instant(#[trigger] a[i].time) by {
            reveal(each_bucket_from_a_row);
            let j = choose|j: int| 0 <= j < rv.len() && #[trigger] rv[j].time == a[i].time;
            assert(rv[j] == rows@[j]@);
        }
    }
    bs
}

/// How far apart two instants are, in whole seconds as chrono counts them.
pub open spec fn distance(t: UtcInstant, target: UtcInstant) -> int {
    let d = chrono_seconds_between(t, target);
    if d < 0 {
        -d
    } else {
        d
    }
}

/// How far apart two instants are, in whole seconds as chrono counts them
/// (`signed_duration_since`, `num_seconds`, then the absolute value).
pub fn distance_of(t: UtcInstant, target: UtcInstant) -> (d: i64)
    requires
        in_chrono_range(t),
        in_chrono_range(target),
    ensures
        d == distance(t, target),
{
    let s = seconds_between(t, target);
    if s < 0 {
        -s
    } else {
        s
    }
}

/// The first bucket nearest to `target`, with its distance: a later bucket
/// replaces the best so far only when strictly nearer.
pub open spec fn closest_from(bs: Seq<BucketView>, target: UtcInstant) -> Option<(int, int)>
    decreases bs.len(),
{
    if bs.len() == 0 {
        None
    } else {
        let d = distance(bs.last().time, target);
        match closest_from(bs.drop_last(), target) {
            None => Some(((bs.len() - 1) as int, d)),
            Some((k, best)) => if d < best {
                Some(((bs.len() - 1) as int, d))
            } else {
                Some((k, best))
            },
        }
    }
}

/// The index of the first bucket nearest to `target`.
pub open spec fn closest_index(bs: Seq<BucketView>, target: UtcInstant) -> int {
    match closest_from(bs, target) {
        Some((k, _)) => k,
        None => 0,
    }
}

proof fn lemma_closest_in_range(bs: Seq<BucketView>, target: UtcInstant)
    ensures
        closest_from(bs, target) matches Some((k, d)) ==> 0 <= k < bs.len() && d == distance(
            bs[k].time,
            target,
        ),
        bs.len() > 0 ==> closest_from(bs, target) is Some,
    decreases bs.len(),
{
    if bs.len() > 0 {
        lemma_closest_in_range(bs.drop_last(), target);
    }
}

/// Finds the first bucket nearest to `target`.
pub fn find_closest(bs: &Vec<Bucket>, target: UtcInstant) -> (k: usize)
    requires
        bs@.len() > 0,
        buckets_ok(buckets_view(bs@)),
        in_chrono_range(target),
    ensures
        k < bs@.len(),
        k == closest_index(buckets_view(bs@), target),
{
    let ghost v = buckets_view(bs@);
    let n = bs.len();
    let mut best: usize = 0;
    assert(v[0] == bs@[0]@);
    assert(chrono_instant(v[0].time));
    let mut best_d: i64 = distance_of(bs[0].time, target);
    let mut i: usize = 1;
    proof {
        assert(v[0] == bs@[0]@);
        assert(v.take(1).drop_last() =~= Seq::<BucketView>::empty());
        assert(v.take(1).last() == v[0]);
        assert(closest_from(v.take(1).drop_last(), target) is None);
        assert(closest_from(v.take(1), target) == Some((0int, best_d as int)));
    }
    while i < n
        invariant
            1 <= i <= n,
            n == bs@.len(),
            v == buckets_view(bs@),
            buckets_ok(v),
            in_chrono_range(target),
            best < i,
            closest_from(v.take(i as int), target) == Some((best as int, best_d as int)),
        decreases n - i,
    {
        assert(v[i as int] == bs@[i as int]@);
        assert(chrono_instant(v[i as int].time));
        let d = distance_of(bs[i].time, target);
        let ghost taken = v.take(i + 1);
        assert(taken.drop_last() =~= v.take(i as int));
        assert(taken.last() == v[i as int]);
        if d < best_d {
            best = i;
            best_d = d;
        }
        i = i + 1;
    }
    assert(v.take(n as int) =~= v);
    best
}

/// A bucket falls on day number `day` in Europe/Helsinki local time.
pub open spec fn on_day(b: BucketView, day: i32) -> bool {
    helsinki_day_number(b.time) == day
}

/// The temperature texts of the buckets on day `day`, in time order.
pub open spec fn day_temps(bs: Seq<BucketView>, day: i32) -> Seq<Seq<char>>
    decreases bs.len(),
{
    if bs.len() == 0 {
        Seq::empty()
    } else {
        let b = bs.last();
        let earlier = day_temps(bs.drop_last(), day);
        match b.temp {
            Some(t) => if on_day(b, day) {
                earlier.push(t)
            } else {
                earlier
            },
            None => earlier,
        }
    }
}

/// Among the buckets on day `day` that have a symbol, the first one nearest
/// to `noon`: its distance and its symbol text.
pub open spec fn midday_from(bs: Seq<BucketView>, day: i32, noon: UtcInstant) -> Option<
    (int, Seq<char>),
>
    decreases bs.len(),
{
    if bs.len() == 0 {
        None
    } else {
        let b = bs.last();
        let earlier = midday_from(bs.drop_last(), day, noon);
        match b.symbol {
            Some(sym) => if on_day(b, day) {
                let d = distance(b.time, noon);
                match earlier {
                    None => Some((d, sym)),
                    Some((best, s)) => if d < best {
                        Some((d, sym))
                    } else {
                        Some((best, s))
                    },
                }
            } else {
                earlier
            },
            None => earlier,
        }
    }
}

/// The symbol text of the bucket nearest to local noon on day `day`.
pub open spec fn midday_symbol(bs: Seq<BucketView>, day: i32, noon: UtcInstant) -> Option<Seq<char>> {
    match midday_from(bs, day, noon) {
        Some((_, s)) => Some(s),
        None => None,
    }
}

/// The texts of a vector of strings.
pub open spec fn texts_view(v: Seq<String>) -> Seq<Seq<char>> {
    v.map_values(|s: String| s@)
}

fn copy_text(o: &Option<String>) -> (r: Option<String>)
    ensures
        text_view(r) == text_view(*o),
{
    match o {
        Some(s) => Some(s.clone()),
        None => None,
    }
}

/// The temperatures of day `day` and the symbol nearest to its local noon.
pub fn scan_day(bs: &Vec<Bucket>, day: i32, noon: UtcInstant) -> (r: (Vec<String>, Option<String>))
    requires
        buckets_ok(buckets_view(bs@)),
        in_chrono_range(noon),
    ensures
        texts_view(r.0@) == day_temps(buckets_view(bs@), day),
        text_view(r.1) == midday_symbol(buckets_view(bs@), day, noon),
{
    let ghost v = buckets_view(bs@);
    let n = bs.len();
    let mut temps: Vec<String> = Vec::new();
    let mut best: Option<(i64, String)> = None;
    let mut i: usize = 0;
    assert(v.take(0) =~= Seq::<BucketView>::empty());
    assert(texts_view(temps@) =~= Seq::<Seq<char>>::empty());
    while i < n
        invariant
            i <= n,
            n == bs@.len(),
            v == buckets_view(bs@),
            buckets_ok(v),
            in_chrono_range(noon),
            texts_view(temps@) == day_temps(v.take(i as int), day),
            match best {
                Some((d, s)) => midday_from(v.take(i as int), day, noon) == Some((d as int, s@)),
                None => midday_from(v.take(i as int), day, noon) is None,
            },
        decreases n - i,
    {
        let ghost taken = v.take(i + 1);
        assert(taken.drop_last() =~= v.take(i as int));
        assert(taken.last() == v[i as int]);
        assert(v[i as int] == bs@[i as int]@);
        assert(chrono_instant(v[i as int].time));
        let b = &bs[i];
        let d = helsinki_day(b.time);
        if d == day {
            match &b.temp {
                Some(t) => {
                    let ghost before = temps@;
                    temps.push(t.clone());
                    assert(texts_view(temps@) =~= texts_view(before).push(t@));
                },
                None => {},
            }
            match &b.symbol {
                Some(sym) => {
                    let dist = distance_of(b.time, noon);
                    let better = match &best {
                        None => true,
                        Some((bd, _)) => dist < *bd,
                    };
                    if better {
                        best = Some((dist, sym.clone()));
                    }
                },
                None => {},
            }
        }
        i = i + 1;
    }
    assert(v.take(n as int) =~= v);
    let sym = match best {
        Some((_, s)) => Some(s),
        None => None,
    };
    (temps, sym)
}

/// The reading for "now".
pub struct CurrentSlot {
    pub label: String,
    pub symbol: Option<String>,
    pub temp: String,
    pub weekday: String,
}

/// A reading some hours ahead.
pub struct FutureSlot {
    pub label: String,
    pub symbol: Option<String>,
    pub temp: String,
    pub plus_hours: u32,
    pub weekday: String,
}

/// One local day: its temperature texts in time order and the symbol text
/// nearest to local noon.
pub struct DaySlot {
    pub label: String,
    pub temps: Vec<String>,
    pub midday_symbol: Option<String>,
}

/// The whole forecast, before any text is read as a number.
pub struct ForecastPlan {
    pub location: String,
    pub current: CurrentSlot,
    pub days: Vec<DaySlot>,
    pub future: Vec<FutureSlot>,
}

/// `CurrentSlot` as plain values.
pub struct CurrentModel {
    pub label: Seq<char>,
    pub symbol: Option<Seq<char>>,
    pub temp: Seq<char>,
    pub weekday: Seq<char>,
}

/// `FutureSlot` as plain values.
pub struct FutureModel {
    pub label: Seq<char>,
    pub symbol: Option<Seq<char>>,
    pub temp: Seq<char>,
    pub plus_hours: u32,
    pub weekday: Seq<char>,
}

/// `DaySlot` as plain values.
pub struct DayModel {
    pub label: Seq<char>,
    pub temps: Seq<Seq<char>>,
    pub midday_symbol: Option<Seq<char>>,
}

/// `ForecastPlan` as plain values.
pub struct PlanModel {
    pub location: Seq<char>,
    pub current: CurrentModel,
    pub days: Seq<DayModel>,
    pub future: Seq<FutureModel>,
}

impl View for CurrentSlot {
    type V = CurrentModel;

    open spec fn view(&self) -> CurrentModel {
        CurrentModel {
            label: self.label@,
            symbol: text_view(self.symbol),
            temp: self.temp@,
            weekday: self.weekday@,
        }
    }
}

impl View for FutureSlot {
    type V = FutureModel;

    open spec fn view(&self) -> FutureModel {
        FutureModel {
            label: self.label@,
            symbol: text_view(self.symbol),
            temp: self.temp@,
            plus_hours: self.plus_hours,
            weekday: self.weekday@,
        }
    }
}

impl View for DaySlot {
    type V = DayModel;

    open spec fn view(&self) -> DayModel {
        DayModel {
            label: self.label@,
            temps: texts_view(self.temps@),
            midday_symbol: text_view(self.midday_symbol),
        }
    }
}

impl View for ForecastPlan {
    type V = PlanModel;

    open spec fn view(&self) -> PlanModel {
        PlanModel {
            location: self.location@,
            current: self.current@,
            days: self.days@.map_values(|d: DaySlot| d@),
            future: self.future@.map_values(|f: FutureSlot| f@),
        }
    }
}

/// The Europe/Helsinki weekday name of instant `t`.
pub open spec fn weekday_label_of(t: UtcInstant) -> Seq<char> {
    weekday_name(weekday_of_day(helsinki_day_number(t) as int))
}

/// The "now" reading: the bucket nearest to `now`, which must have a
/// temperature.
pub open spec fn current_of(bs: Seq<BucketView>, now: UtcInstant) -> Result<CurrentModel, Seq<char>> {
    let b = bs[closest_index(bs, now)];
    match b.temp {
        None => Err("Temperature missing for current row"@),
        Some(t) => Ok(
            CurrentModel {
                label: "Now"@,
                symbol: b.symbol,
                temp: t,
                weekday: weekday_label_of(b.time),
            },
        ),
    }
}

/// "In 2 hours" and the like.
pub open spec fn future_label(h: u32) -> Seq<char> {
    "In "@ + decimal(h as nat) + " hours"@
}

/// The reading `h` hours ahead: the bucket nearest to that instant, left
/// out when it has no temperature.
pub open spec fn future_slot(bs: Seq<BucketView>, now: UtcInstant, h: u32) -> Seq<FutureModel> {
    let b = bs[closest_index(bs, hours_after(now, h as int))];
    match b.temp {
        None => Seq::empty(),
        Some(t) => seq![
            FutureModel {
                label: future_label(h),
                symbol: b.symbol,
                temp: t,
                plus_hours: h,
                weekday: weekday_label_of(b.time),
            },
        ],
    }
}

/// The readings two, four and six hours ahead, those that have a
/// temperature.
pub open spec fn future_of(bs: Seq<BucketView>, now: UtcInstant) -> Seq<FutureModel> {
    future_slot(bs, now, 2) + future_slot(bs, now, 4) + future_slot(bs, now, 6)
}

/// "Today", "Tomorrow", "Day after".
pub open spec fn day_label(offset: int) -> Seq<char> {
    if offset == 0 {
        "Today"@
    } else if offset == 1 {
        "Tomorrow"@
    } else {
        "Day after"@
    }
}

/// The local day `offset` days after today, left out when chrono-tz has no
/// single instant for its local noon (12:00:00), the instant at which the
/// day's weather symbol is taken.
pub open spec fn day_slot(bs: Seq<BucketView>, now: UtcInstant, offset: int) -> Seq<DayModel> {
    let day = (helsinki_day_number(now) + offset) as i32;
    match helsinki_local_utc(day, 12, 0, 0) {
        None => Seq::empty(),
        Some(noon) => seq![
            DayModel {
                label: day_label(offset),
                temps: day_temps(bs, day),
                midday_symbol: midday_symbol(bs, day, noon),
            },
        ],
    }
}

/// Today, tomorrow and the day after.
pub open spec fn days_of(bs: Seq<BucketView>, now: UtcInstant) -> Seq<DayModel> {
    day_slot(bs, now, 0) + day_slot(bs, now, 1) + day_slot(bs, now, 2)
}

/// The forecast for `place` at instant `now` from the feed rows `rows`.
pub open spec fn forecast_plan(place: Seq<char>, now: UtcInstant, rows: Seq<RowView>) -> Result<
    PlanModel,
    Seq<char>,
> {
    let bs = bucket_rows(rows);
    if bs.len() == 0 {
        Err("no usable forecast rows"@)
    } else {
        match current_of(bs, now) {
            Err(m) => Err(m),
            Ok(c) => Ok(
                PlanModel {
                    location: capitalised(place),
                    current: c,
                    days: days_of(bs, now),
                    future: future_of(bs, now),
                },
            ),
        }
    }
}

/// An executable result against a specified one.
pub open spec fn same_plan(r: Result<ForecastPlan, String>, s: Result<PlanModel, Seq<char>>) -> bool {
    match (r, s) {
        (Ok(p), Ok(v)) => p@ == v,
        (Err(e), Err(m)) => e@ == m,
        _ => false,
    }
}

/// A "now" whose local date chrono can hold, and from which the date two
/// days later is still one chrono can hold: chrono panics when a local
/// time or a date moves past its range.
pub open spec fn usable_now(now: UtcInstant) -> bool {
    &&& chrono_instant(now)
    &&& now.secs <= CHRONO_MAX_SECS - 259_200
}

proof fn lemma_day_of_secs(x: int)
    ensures
        (x / 86400) * 86400 <= x < (x / 86400) * 86400 + 86400,
{
}

fn future_into(bs: &Vec<Bucket>, now: UtcInstant, h: u32, out: &mut Vec<FutureSlot>)
    requires
        bs@.len() > 0,
        buckets_ok(buckets_view(bs@)),
        usable_now(now),
        h == 2 || h == 4 || h == 6,
    ensures
        final(out)@.map_values(|f: FutureSlot| f@) == old(out)@.map_values(|f: FutureSlot| f@) + future_slot(
            buckets_view(bs@),
            now,
            h,
        ),
{
    let ghost v = buckets_view(bs@);
    let target = add_hours(now, h as i64);
    let k = find_closest(bs, target);
    assert(v[k as int] == bs@[k as int]@);
    assert(chrono_instant(v[k as int].time));
    let b = &bs[k];
    let ghost before = old(out)@.map_values(|f: FutureSlot| f@);
    match &b.temp {
        None => {
            assert(out@.map_values(|f: FutureSlot| f@) =~= before + Seq::<FutureModel>::empty());
        },
        Some(t) => {
            let mut label = String::from_str("In ");
            push_decimal(&mut label, h as u64);
            label.append(" hours");
            let slot = FutureSlot {
                label: label,
                symbol: copy_text(&b.symbol),
                temp: t.clone(),
                plus_hours: h,
                weekday: weekday_label_local(b.time),
            };
            out.push(slot);
            assert(out@.map_values(|f: FutureSlot| f@) =~= before + future_slot(v, now, h));
        },
    }
}

fn day_into(bs: &Vec<Bucket>, now: UtcInstant, today: i32, offset: i32, out: &mut Vec<DaySlot>)
    requires
        buckets_ok(buckets_view(bs@)),
        usable_now(now),
        today == helsinki_day_number(now),
        utc_day(now) - 1 <= today <= utc_day(now) + 1,
        0 <= offset <= 2,
    ensures
        final(out)@.map_values(|d: DaySlot| d@) == old(out)@.map_values(|d: DaySlot| d@) + day_slot(
            buckets_view(bs@),
            now,
            offset as int,
        ),
{
    let ghost v = buckets_view(bs@);
    let ghost before = old(out)@.map_values(|d: DaySlot| d@);
    proof {
        lemma_day_of_secs(now.secs as int);
        assert(now.secs / 86400 <= CHRONO_MAX_SECS / 86400) by (nonlinear_arith)
            requires
                now.secs <= CHRONO_MAX_SECS,
        ;
        assert(now.secs / 86400 >= CHRONO_MIN_SECS / 86400 - 1) by (nonlinear_arith)
            requires
                now.secs >= CHRONO_MIN_SECS,
        ;
    }
    let day = today + offset;
    match helsinki_local_to_utc(day, 12, 0, 0) {
        None => {
            assert(out@.map_values(|d: DaySlot| d@) =~= before + Seq::<DayModel>::empty());
        },
        Some(noon) => {
            let (temps, sym) = scan_day(bs, day, noon);
            let label = if offset == 0 {
                String::from_str("Today")
            } else if offset == 1 {
                String::from_str("Tomorrow")
            } else {
                String::from_str("Day after")
            };
            out.push(DaySlot { label: label, temps: temps, midday_symbol: sym });
            assert(out@.map_values(|d: DaySlot| d@) =~= before + day_slot(v, now, offset as int));
        },
    }
}

/// Builds the forecast for `place` at instant `now` from the feed rows:
/// rows gathered into one bucket per instant; "now" from the bucket
/// nearest to `now`; the readings two, four and six hours ahead from the
/// buckets nearest to those instants, each left out when it has no
/// temperature; and today, tomorrow and the day after in Europe/Helsinki
/// local time, each with its temperatures and the symbol nearest to local
/// noon. `place` is capitalised for display.
pub fn build_forecast(place: &str, now: UtcInstant, rows: &Vec<Row>) -> (r: Result<
    ForecastPlan,
    String,
>)
    requires
        usable_now(now),
        forall|i: int| 0 <= i < rows@.len() ==> chrono_instant(#[trigger] rows@[i].time),
    ensures
        same_plan(r, forecast_plan(place@, now, rows_view(rows@))),
{
    let bs = bucket_rows_of(rows);
    let ghost v = buckets_view(bs@);
    if bs.len() == 0 {
        return Err(String::from_str("no usable forecast rows"));
    }
    let k = find_closest(&bs, now);
    assert(v[k as int] == bs@[k as int]@);
    assert(chrono_instant(v[k as int].time));
    let b = &bs[k];
    let current = match &b.temp {
        None => {
            return Err(String::from_str("Temperature missing for current row"));
        },
        Some(t) => CurrentSlot {
            label: String::from_str("Now"),
            symbol: copy_text(&b.symbol),
            temp: t.clone(),
            weekday: weekday_label_local(b.time),
        },
    };
    let mut future: Vec<FutureSlot> = Vec::new();
    assert(future@.map_values(|f: FutureSlot| f@) =~= Seq::<FutureModel>::empty());
    future_into(&bs, now, 2, &mut future);
    future_into(&bs, now, 4, &mut future);
    future_into(&bs, now, 6, &mut future);
    assert(future@.map_values(|f: FutureSlot| f@) =~= future_of(v, now));
    let today = helsinki_day(now);
    let mut days: Vec<DaySlot> = Vec::new();
    assert(days@.map_values(|d: DaySlot| d@) =~= Seq::<DayModel>::empty());
    day_into(&bs, now, today, 0, &mut days);
    day_into(&bs, now, today, 1, &mut days);
    day_into(&bs, now, today, 2, &mut days);
    assert(days@.map_values(|d: DaySlot| d@) =~= days_of(v, now));
    Ok(ForecastPlan { location: titlecase(place), current: current, days: days, future: future })
}

/// The value of the last row of `rows` at instant `t` for parameter
/// `name`, if any.
pub open spec fn last_reading(rows: Seq<RowView>, t: UtcInstant, name: Seq<char>) -> Option<
    Seq<char>,
>
    decreases rows.len(),
{
    if rows.len() == 0 {
        None
    } else if rows.last().time == t && rows.last().name == name {
        Some(rows.last().value)
    } else {
        last_reading(rows.drop_last(), t, name)
    }
}

/// Buckets strictly in time order.
#[verifier::opaque]
pub open spec fn strictly_sorted(bs: Seq<BucketView>) -> bool {
    forall|i: int, j: int| 0 <= i < j < bs.len() ==> instant_before(#[trigger] bs[i].time, #[trigger] bs[j].time)
}

/// Every bucket's instant is the instant of some row.
#[verifier::opaque]
pub open spec fn each_bucket_from_a_row(bs: Seq<BucketView>, rows: Seq<RowView>) -> bool {
    forall|i: int| 0 <= i < bs.len() ==> exists|j: int| 0 <= j < rows.len() && #[trigger] rows[j].time == (#[trigger] bs[i]).time
}

/// Every row's instant has a bucket.
#[verifier::opaque]
pub open spec fn each_row_has_a_bucket(bs: Seq<BucketView>, rows: Seq<RowView>) -> bool {
    forall|j: int| 0 <= j < rows.len() ==> exists|i: int| 0 <= i < bs.len() && (#[trigger] bs[i]).time == #[trigger] rows[j].time
}

/// Every bucket holds the last temperature and the last symbol given for
/// its instant.
#[verifier::opaque]
pub open spec fn readings_are_last(bs: Seq<BucketView>, rows: Seq<RowView>) -> bool {
    forall|i: int| 0 <= i < bs.len() ==> {
        &&& (#[trigger] bs[i]).temp == last_reading(rows, bs[i].time, "Temperature"@)
        &&& bs[i].symbol == last_reading(rows, bs[i].time, "WeatherSymbol3"@)
    }
}

/// What a map from instant to readings would hold for `rows`: one bucket
/// per instant of a row, in time order, each holding the last readings
/// given for its instant.
pub open spec fn buckets_match(bs: Seq<BucketView>, rows: Seq<RowView>) -> bool {
    &&& strictly_sorted(bs)
    &&& each_bucket_from_a_row(bs, rows)
    &&& each_row_has_a_bucket(bs, rows)
    &&& readings_are_last(bs, rows)
}

pub(crate) proof fn lemma_no_reading_without_row(rows: Seq<RowView>, t: UtcInstant, name: Seq<char>)
    requires
        forall|j: int| 0 <= j < rows.len() ==> (#[trigger] rows[j]).time != t,
    ensures
        last_reading(rows, t, name) is None,
    decreases rows.len(),
{
    if rows.len() > 0 {
        assert(rows.last() == rows[rows.len() - 1]);
        assert forall|j: int| 0 <= j < rows.drop_last().len() implies (#[trigger] rows.drop_last()[j]).time != t by {
            assert(rows.drop_last()[j] == rows[j]);
        }
        lemma_no_reading_without_row(rows.drop_last(), t, name);
    }
}

pub(crate) proof fn lemma_last_reading_push(rows: Seq<RowView>, r: RowView, t: UtcInstant, name: Seq<char>)
    ensures
        last_reading(rows.push(r), t, name) == if r.time == t && r.name == name {
            Some(r.value)
        } else {
            last_reading(rows, t, name)
        },
{
    assert(rows.push(r).drop_last() =~= rows);
}

proof fn lemma_slot_exists(bs: Seq<BucketView>, t: UtcInstant, p: int)
    requires
        0 <= p <= bs.len(),
        forall|j: int| 0 <= j < p ==> instant_before(#[trigger] bs[j].time, t),
    ensures
        is_slot(bs, t, slot_of(bs, t)),
    decreases bs.len() - p,
{
    if p < bs.len() && instant_before(bs[p].time, t) {
        lemma_slot_exists(bs, t, p + 1);
    } else {
        assert(is_slot(bs, t, p));
    }
}

proof fn lemma_update_keeps_match(bs: Seq<BucketView>, rows: Seq<RowView>, r: RowView, p: int)
    requires
        buckets_match(bs, rows),
        0 <= p < bs.len(),
        bs[p].time == r.time,
    ensures
        buckets_match(bs.update(p, add_reading(bs[p], r)), rows.push(r)),
{
    let nb = bs.update(p, add_reading(bs[p], r));
    let all = rows.push(r);
    let t = r.time;
    assert(strictly_sorted(nb)) by {
        reveal(strictly_sorted);
        assert forall|i: int, j: int| 0 <= i < j < nb.len() implies instant_before(#[trigger] nb[i].time, #[trigger] nb[j].time) by {
            assert(nb[i].time == bs[i].time);
            assert(nb[j].time == bs[j].time);
        }
    }
    assert(each_bucket_from_a_row(nb, all)) by {
        reveal(each_bucket_from_a_row);
        assert forall|i: int| 0 <= i < nb.len() implies exists|j: int| 0 <= j < all.len() && #[trigger] all[j].time == (#[trigger] nb[i]).time by {
            assert(nb[i].time == bs[i].time);
            let j = choose|j: int| 0 <= j < rows.len() && #[trigger] rows[j].time == bs[i].time;
            assert(all[j] == rows[j]);
        }
    }
    assert(each_row_has_a_bucket(nb, all)) by {
        reveal(each_row_has_a_bucket);
        assert forall|j: int| 0 <= j < all.len() implies exists|i: int| 0 <= i < nb.len() && (#[trigger] nb[i]).time == #[trigger] all[j].time by {
            if j < rows.len() {
                assert(all[j] == rows[j]);
                let i = choose|i: int| 0 <= i < bs.len() && (#[trigger] bs[i]).time == rows[j].time;
                assert(nb[i].time == bs[i].time);
            } else {
                assert(nb[p].time == t);
            }
        }
    }
    assert(readings_are_last(nb, all)) by {
        reveal(readings_are_last);
        reveal_strlit("Temperature");
        reveal_strlit("WeatherSymbol3");
        assert("Temperature"@ != "WeatherSymbol3"@) by {
            assert("Temperature"@.len() != "WeatherSymbol3"@.len());
        }
        reveal(strictly_sorted);
        assert forall|i: int| 0 <= i < nb.len() implies {
            &&& (#[trigger] nb[i]).temp == last_reading(all, nb[i].time, "Temperature"@)
            &&& nb[i].symbol == last_reading(all, nb[i].time, "WeatherSymbol3"@)
        } by {
            lemma_last_reading_push(rows, r, nb[i].time, "Temperature"@);
            lemma_last_reading_push(rows, r, nb[i].time, "WeatherSymbol3"@);
            assert(bs[i].temp == last_reading(rows, bs[i].time, "Temperature"@));
            if i != p {
                assert(nb[i] == bs[i]);
                if i < p {
                    assert(instant_before(bs[i].time, bs[p].time));
                } else {
                    assert(instant_before(bs[p].time, bs[i].time));
                }
            }
        }
    }
}

proof fn lemma_insert_keeps_match(bs: Seq<BucketView>, rows: Seq<RowView>, r: RowView, p: int)
    requires
        buckets_match(bs, rows),
        is_slot(bs, r.time, p),
        !(p < bs.len() && bs[p].time == r.time),
    ensures
        buckets_match(
            bs.insert(p, add_reading(BucketView { time: r.time, temp: None, symbol: None }, r)),
            rows.push(r),
        ),
{
    let t = r.time;
    let nb = bs.insert(p, add_reading(BucketView { time: t, temp: None, symbol: None }, r));
    let all = rows.push(r);
    assert(forall|i: int| 0 <= i < bs.len() ==> (#[trigger] bs[i]).time != t) by {
        reveal(strictly_sorted);
        assert forall|i: int| 0 <= i < bs.len() implies (#[trigger] bs[i]).time != t by {
            if i > p {
                assert(instant_before(bs[p].time, bs[i].time));
            }
        }
    }
    assert(strictly_sorted(nb)) by {
        reveal(strictly_sorted);
        assert forall|i: int, j: int| 0 <= i < j < nb.len() implies instant_before(#[trigger] nb[i].time, #[trigger] nb[j].time) by {
            if p < bs.len() {
                assert(instant_before(t, bs[p].time));
            }
            if j < p {
                assert(nb[i] == bs[i] && nb[j] == bs[j]);
            } else if j == p {
                assert(nb[i] == bs[i]);
            } else if i < p {
                assert(nb[i] == bs[i] && nb[j] == bs[j - 1]);
                if j - 1 > p {
                    assert(instant_before(bs[p].time, bs[j - 1].time));
                }
            } else if i == p {
                assert(nb[j] == bs[j - 1]);
                if j - 1 > p {
                    assert(instant_before(bs[p].time, bs[j - 1].time));
                }
            } else {
                assert(nb[i] == bs[i - 1] && nb[j] == bs[j - 1]);
            }
        }
    }
    assert(each_bucket_from_a_row(nb, all)) by {
        reveal(each_bucket_from_a_row);
        assert forall|i: int| 0 <= i < nb.len() implies exists|j: int| 0 <= j < all.len() && #[trigger] all[j].time == (#[trigger] nb[i]).time by {
            if i == p {
                assert(all[rows.len() as int].time == t);
            } else {
                let k = if i < p { i } else { i - 1 };
                assert(nb[i] == bs[k]);
                let j = choose|j: int| 0 <= j < rows.len() && #[trigger] rows[j].time == bs[k].time;
                assert(all[j] == rows[j]);
            }
        }
    }
    assert(each_row_has_a_bucket(nb, all)) by {
        reveal(each_row_has_a_bucket);
        assert forall|j: int| 0 <= j < all.len() implies exists|i: int| 0 <= i < nb.len() && (#[trigger] nb[i]).time == #[trigger] all[j].time by {
            if j < rows.len() {
                assert(all[j] == rows[j]);
                let i = choose|i: int| 0 <= i < bs.len() && (#[trigger] bs[i]).time == rows[j].time;
                if i < p {
                    assert(nb[i] == bs[i]);
                } else {
                    assert(nb[i + 1] == bs[i]);
                }
            } else {
                assert(nb[p].time == t);
            }
        }
    }
    assert(forall|j: int| 0 <= j < rows.len() ==> (#[trigger] rows[j]).time != t) by {
        reveal(each_row_has_a_bucket);
        assert forall|j: int| 0 <= j < rows.len() implies (#[trigger] rows[j]).time != t by {
            let i = choose|i: int| 0 <= i < bs.len() && (#[trigger] bs[i]).time == rows[j].time;
        }
    }
    lemma_no_reading_without_row(rows, t, "Temperature"@);
    lemma_no_reading_without_row(rows, t, "WeatherSymbol3"@);
    assert(readings_are_last(nb, all)) by {
        reveal(readings_are_last);
        reveal_strlit("Temperature");
        reveal_strlit("WeatherSymbol3");
        assert("Temperature"@ != "WeatherSymbol3"@) by {
            assert("Temperature"@.len() != "WeatherSymbol3"@.len());
        }
        assert forall|i: int| 0 <= i < nb.len() implies {
            &&& (#[trigger] nb[i]).temp == last_reading(all, nb[i].time, "Temperature"@)
            &&& nb[i].symbol == last_reading(all, nb[i].time, "WeatherSymbol3"@)
        } by {
            lemma_last_reading_push(rows, r, nb[i].time, "Temperature"@);
            lemma_last_reading_push(rows, r, nb[i].time, "WeatherSymbol3"@);
            if i != p {
                let k = if i < p { i } else { i - 1 };
                assert(nb[i] == bs[k]);
                assert(bs[k].temp == last_reading(rows, bs[k].time, "Temperature"@));
            }
        }
    }
}

proof fn lemma_file_row_matches(bs: Seq<BucketView>, rows: Seq<RowView>, r: RowView)
    requires
        buckets_match(bs, rows),
    ensures
        buckets_match(file_row(bs, r), rows.push(r)),
{
    lemma_slot_exists(bs, r.time, 0);
    let p = slot_of(bs, r.time);
    if p < bs.len() && bs[p].time == r.time {
        lemma_update_keeps_match(bs, rows, r, p);
    } else {
        lemma_insert_keeps_match(bs, rows, r, p);
    }
}

/// Bucketing the rows gives what a map from instant to readings gives: one
/// bucket per instant that some row has, in strictly increasing time
/// order, each holding the last temperature and the last symbol given for
/// its instant.
pub proof fn law_buckets_are_a_time_map(rows: Seq<RowView>)
    ensures
        buckets_match(bucket_rows(rows), rows),
    decreases rows.len(),
{
    if rows.len() == 0 {
        reveal(strictly_sorted);
        reveal(each_bucket_from_a_row);
        reveal(each_row_has_a_bucket);
        reveal(readings_are_last);
    } else {
        law_buckets_are_a_time_map(rows.drop_last());
        lemma_file_row_matches(bucket_rows(rows.drop_last()), rows.drop_last(), rows.last());
        assert(rows.drop_last().push(rows.last()) =~= rows);
    }
}

/// The bucket picked as nearest to `target` is one of the buckets, no
/// bucket is nearer, and every earlier bucket is strictly farther: ties go
/// to the earliest bucket.
pub proof fn law_nearest_bucket(bs: Seq<BucketView>, target: UtcInstant)
    requires
        bs.len() > 0,
    ensures
        0 <= closest_index(bs, target) < bs.len(),
        forall|j: int| 0 <= j < bs.len() ==> distance(bs[closest_index(bs, target)].time, target) <= distance(#[trigger] bs[j].time, target),
        forall|j: int| 0 <= j < closest_index(bs, target) ==> distance(#[trigger] bs[j].time, target) > distance(bs[closest_index(bs, target)].time, target),
    decreases bs.len(),
{
    lemma_closest_in_range(bs, target);
    let n = bs.len() as int;
    if n == 1 {
        assert(closest_from(bs.drop_last(), target) is None);
        assert(closest_index(bs, target) == 0);
    } else {
        let front = bs.drop_last();
        law_nearest_bucket(front, target);
        lemma_closest_in_range(front, target);
        let kf = closest_index(front, target);
        let df = distance(front[kf].time, target);
        let dl = distance(bs[n - 1].time, target);
        assert(bs.last() == bs[n - 1]);
        assert(front[kf] == bs[kf]);
        assert(closest_from(front, target) == Some((kf, df)));
        if dl < df {
            assert(closest_index(bs, target) == n - 1);
            assert forall|j: int| 0 <= j < n implies distance(bs[n - 1].time, target) <= distance(#[trigger] bs[j].time, target) by {
                if j < n - 1 {
                    assert(front[j] == bs[j]);
                }
            }
            assert forall|j: int| 0 <= j < n - 1 implies distance(#[trigger] bs[j].time, target) > distance(bs[n - 1].time, target) by {
                assert(front[j] == bs[j]);
            }
        } else {
            assert(closest_index(bs, target) == kf);
            assert forall|j: int| 0 <= j < n implies distance(bs[kf].time, target) <= distance(#[trigger] bs[j].time, target) by {
                if j < n - 1 {
                    assert(front[j] == bs[j]);
                }
            }
            assert forall|j: int| 0 <= j < kf implies distance(#[trigger] bs[j].time, target) > distance(bs[kf].time, target) by {
                assert(front[j] == bs[j]);
            }
        }
    }
}

/// The short-horizon readings: at most three, for 2, 4 and 6 hours ahead
/// in that order, each labelled "In h hours".
pub proof fn law_future_readings(bs: Seq<BucketView>, now: UtcInstant)
    ensures
        future_of(bs, now).len() <= 3,
        forall|i: int| 0 <= i < future_of(bs, now).len() ==> {
            let h = (#[trigger] future_of(bs, now)[i]).plus_hours;
            &&& h == 2 || h == 4 || h == 6
            &&& future_of(bs, now)[i].label == future_label(h)
        },
        forall|i: int, j: int| 0 <= i < j < future_of(bs, now).len() ==> (#[trigger] future_of(bs, now)[i]).plus_hours < (#[trigger] future_of(bs, now)[j]).plus_hours,
{
    let a = future_slot(bs, now, 2);
    let b = future_slot(bs, now, 4);
    let c = future_slot(bs, now, 6);
    let f = future_of(bs, now);
    assert(f == a + b + c);
    assert forall|i: int| 0 <= i < f.len() implies {
        let h = (#[trigger] f[i]).plus_hours;
        &&& h == 2 || h == 4 || h == 6
        &&& f[i].label == future_label(h)
        &&& (i < a.len() ==> h == 2)
        &&& (a.len() <= i < a.len() + b.len() ==> h == 4)
        &&& (a.len() + b.len() <= i ==> h == 6)
    } by {
        if i < a.len() {
            assert(f[i] == a[i]);
        } else if i < a.len() + b.len() {
            assert(f[i] == b[i - a.len()]);
        } else {
            assert(f[i] == c[i - a.len() - b.len()]);
        }
    }
}

/// The rank of a day label: today, tomorrow, the day after.
pub open spec fn day_rank(label: Seq<char>) -> int {
    if label == "Today"@ {
        0
    } else if label == "Tomorrow"@ {
        1
    } else {
        2
    }
}

/// The daily summaries: at most three, labelled "Today", "Tomorrow",
/// "Day after", in that order.
pub proof fn law_days_in_order(bs: Seq<BucketView>, now: UtcInstant)
    ensures
        days_of(bs, now).len() <= 3,
        forall|i: int| 0 <= i < days_of(bs, now).len() ==> #[trigger] days_of(bs, now)[i].label == day_label(day_rank(days_of(bs, now)[i].label)),
        forall|i: int, j: int| 0 <= i < j < days_of(bs, now).len() ==> day_rank(#[trigger] days_of(bs, now)[i].label) < day_rank(#[trigger] days_of(bs, now)[j].label),
{
    reveal_strlit("Today");
    reveal_strlit("Tomorrow");
    reveal_strlit("Day after");
    assert("Today"@ != "Tomorrow"@) by {
        assert("Today"@.len() != "Tomorrow"@.len());
    }
    assert("Today"@ != "Day after"@) by {
        assert("Today"@.len() != "Day after"@.len());
    }
    assert("Tomorrow"@ != "Day after"@) by {
        assert("Tomorrow"@.len() != "Day after"@.len());
    }
    let a = day_slot(bs, now, 0);
    let b = day_slot(bs, now, 1);
    let c = day_slot(bs, now, 2);
    let d = days_of(bs, now);
    assert(d == a + b + c);
    assert forall|i: int| 0 <= i < d.len() implies {
        &&& (#[trigger] d[i]).label == day_label(day_rank(d[i].label))
        &&& (i < a.len() ==> day_rank(d[i].label) == 0)
        &&& (a.len() <= i < a.len() + b.len() ==> day_rank(d[i].label) == 1)
        &&& (a.len() + b.len() <= i ==> day_rank(d[i].label) == 2)
    } by {
        if i < a.len() {
            assert(d[i] == a[i]);
        } else if i < a.len() + b.len() {
            assert(d[i] == b[i - a.len()]);
        } else {
            assert(d[i] == c[i - a.len() - b.len()]);
        }
    }
}

/// A bucket on day `day` that has a weather symbol.
pub open spec fn symbol_on(b: BucketView, day: i32) -> bool {
    on_day(b, day) && b.symbol is Some
}

proof fn lemma_midday_from(bs: Seq<BucketView>, day: i32, noon: UtcInstant)
    ensures
        midday_from(bs, day, noon) is None <==> forall|i: int| 0 <= i < bs.len() ==> !symbol_on(#[trigger] bs[i], day),
        midday_from(bs, day, noon) matches Some((d, s)) ==> exists|k: int| {
            &&& 0 <= k < bs.len()
            &&& symbol_on(#[trigger] bs[k], day)
            &&& bs[k].symbol == Some(s)
            &&& d == distance(bs[k].time, noon)
            &&& forall|j: int| 0 <= j < bs.len() && symbol_on(#[trigger] bs[j], day) ==> d <= distance(bs[j].time, noon)
            &&& forall|j: int| 0 <= j < k && symbol_on(#[trigger] bs[j], day) ==> distance(bs[j].time, noon) > d
        },
    decreases bs.len(),
{
    if bs.len() > 0 {
        let n = bs.len() - 1;
        let front = bs.drop_last();
        lemma_midday_from(front, day, noon);
        assert(bs.last() == bs[n]);
        assert forall|j: int| 0 <= j < n implies #[trigger] front[j] == bs[j] by {}
        let dl = distance(bs[n].time, noon);
        match midday_from(front, day, noon) {
            None => {
                assert forall|i: int| 0 <= i < n implies !symbol_on(#[trigger] bs[i], day) by {
                    assert(front[i] == bs[i]);
                }
                if symbol_on(bs[n], day) {
                    assert(symbol_on(bs[n], day) && bs[n].symbol == Some(bs[n].symbol->0));
                }
            },
            Some((df, sf)) => {
                let kf = choose|k: int| {
                    &&& 0 <= k < front.len()
                    &&& symbol_on(#[trigger] front[k], day)
                    &&& front[k].symbol == Some(sf)
                    &&& df == distance(front[k].time, noon)
                    &&& forall|j: int| 0 <= j < front.len() && symbol_on(#[trigger] front[j], day) ==> df <= distance(front[j].time, noon)
                    &&& forall|j: int| 0 <= j < k && symbol_on(#[trigger] front[j], day) ==> distance(front[j].time, noon) > df
                };
                assert(front[kf] == bs[kf]);
                assert(symbol_on(bs[kf], day));
                if symbol_on(bs[n], day) && dl < df {
                    assert forall|j: int| 0 <= j < bs.len() && symbol_on(#[trigger] bs[j], day) implies dl <= distance(bs[j].time, noon) by {
                        if j < n {
                            assert(front[j] == bs[j]);
                        }
                    }
                    assert forall|j: int| 0 <= j < n && symbol_on(#[trigger] bs[j], day) implies distance(bs[j].time, noon) > dl by {
                        assert(front[j] == bs[j]);
                    }
                } else {
                    assert forall|j: int| 0 <= j < bs.len() && symbol_on(#[trigger] bs[j], day) implies df <= distance(bs[j].time, noon) by {
                        if j < n {
                            assert(front[j] == bs[j]);
                        }
                    }
                    assert forall|j: int| 0 <= j < kf && symbol_on(#[trigger] bs[j], day) implies distance(bs[j].time, noon) > df by {
                        assert(front[j] == bs[j]);
                    }
                }
            },
        }
    }
}

/// The weather symbol a day shows: among the buckets of the rows that fall
/// on that local day and have a symbol, the one nearest to the instant
/// `noon`, the earliest of those equally near; its symbol is the last one
/// given for its instant. There is none exactly when no bucket of the day
/// has a symbol.
pub proof fn law_midday_symbol(rows: Seq<RowView>, day: i32, noon: UtcInstant)
    ensures
        midday_symbol(bucket_rows(rows), day, noon) is None <==> forall|i: int| 0 <= i < bucket_rows(rows).len() ==> !symbol_on(#[trigger] bucket_rows(rows)[i], day),
        midday_symbol(bucket_rows(rows), day, noon) matches Some(s) ==> exists|k: int| {
            &&& 0 <= k < bucket_rows(rows).len()
            &&& symbol_on(#[trigger] bucket_rows(rows)[k], day)
            &&& bucket_rows(rows)[k].symbol == Some(s)
            &&& Some(s) == last_reading(rows, bucket_rows(rows)[k].time, "WeatherSymbol3"@)
            &&& forall|j: int| 0 <= j < bucket_rows(rows).len() && symbol_on(#[trigger] bucket_rows(rows)[j], day) ==> distance(bucket_rows(rows)[k].time, noon) <= distance(bucket_rows(rows)[j].time, noon)
            &&& forall|j: int| 0 <= j < bucket_rows(rows).len() && symbol_on(#[trigger] bucket_rows(rows)[j], day) && instant_before(bucket_rows(rows)[j].time, bucket_rows(rows)[k].time) ==> distance(bucket_rows(rows)[j].time, noon) > distance(bucket_rows(rows)[k].time, noon)
        },
{
    let bs = bucket_rows(rows);
    lemma_midday_from(bs, day, noon);
    law_buckets_are_a_time_map(rows);
    if let Some((d, s)) = midday_from(bs, day, noon) {
        let k = choose|k: int| {
            &&& 0 <= k < bs.len()
            &&& symbol_on(#[trigger] bs[k], day)
            &&& bs[k].symbol == Some(s)
            &&& d == distance(bs[k].time, noon)
            &&& forall|j: int| 0 <= j < bs.len() && symbol_on(#[trigger] bs[j], day) ==> d <= distance(bs[j].time, noon)
            &&& forall|j: int| 0 <= j < k && symbol_on(#[trigger] bs[j], day) ==> distance(bs[j].time, noon) > d
        };
        assert(Some(s) == last_reading(rows, bs[k].time, "WeatherSymbol3"@)) by {
            reveal(readings_are_last);
        }
        assert forall|j: int| 0 <= j < bs.len() && symbol_on(#[trigger] bs[j], day) && instant_before(bs[j].time, bs[k].time) implies distance(bs[j].time, noon) > distance(bs[k].time, noon) by {
            reveal(strictly_sorted);
            if j >= k {
                if j > k {
                    assert(instant_before(bs[k].time, bs[j].time));
                }
            }
        }
    }
}

/// The instants at which some row is given.
pub open spec fn instants(rows: Seq<RowView>) -> Set<UtcInstant> {
    Set::new(|t: UtcInstant| exists|j: int| 0 <= j < rows.len() && #[trigger] rows[j].time == t)
}

/// The instants of a sequence of buckets.
spec fn bucket_instants(a: Seq<BucketView>) -> Set<UtcInstant> {
    Set::new(|t: UtcInstant| exists|i: int| 0 <= i < a.len() && #[trigger] a[i].time == t)
}

proof fn lemma_sorted_tail(a: Seq<BucketView>)
    requires
        strictly_sorted(a),
        a.len() > 0,
    ensures
        strictly_sorted(a.drop_first()),
        forall|i: int| 0 < i < a.len() ==> instant_before(a[0].time, #[trigger] a[i].time),
{
    reveal(strictly_sorted);
    let ta = a.drop_first();
    assert forall|i: int, j: int| 0 <= i < j < ta.len() implies instant_before(#[trigger] ta[i].time, #[trigger] ta[j].time) by {
        assert(ta[i] == a[i + 1] && ta[j] == a[j + 1]);
    }
    assert forall|i: int| 0 < i < a.len() implies instant_before(a[0].time, #[trigger] a[i].time) by {
        assert(a[0] == a[0]);
    }
}

proof fn lemma_first_instants_equal(a: Seq<BucketView>, b: Seq<BucketView>)
    requires
        strictly_sorted(a),
        strictly_sorted(b),
        bucket_instants(a) == bucket_instants(b),
        a.len() > 0,
    ensures
        b.len() > 0,
        a[0].time == b[0].time,
{
    lemma_sorted_tail(a);
    assert(bucket_instants(a).contains(a[0].time));
    assert(bucket_instants(b).contains(a[0].time));
    let j0 = choose|j: int| 0 <= j < b.len() && #[trigger] b[j].time == a[0].time;
    lemma_sorted_tail(b);
    assert(bucket_instants(b).contains(b[0].time));
    assert(bucket_instants(a).contains(b[0].time));
    let i0 = choose|i: int| 0 <= i < a.len() && #[trigger] a[i].time == b[0].time;
    if j0 > 0 {
        assert(instant_before(b[0].time, b[j0].time));
        if i0 > 0 {
            assert(instant_before(a[0].time, a[i0].time));
        }
    }
}

proof fn lemma_tails_same_instants(a: Seq<BucketView>, b: Seq<BucketView>)
    requires
        strictly_sorted(a),
        strictly_sorted(b),
        bucket_instants(a) == bucket_instants(b),
        a.len() > 0,
        b.len() > 0,
        a[0].time == b[0].time,
    ensures
        bucket_instants(a.drop_first()) == bucket_instants(b.drop_first()),
{
    lemma_sorted_tail(a);
    lemma_sorted_tail(b);
    let ta = a.drop_first();
    let tb = b.drop_first();
    assert forall|t: UtcInstant| bucket_instants(ta).contains(t) implies bucket_instants(tb).contains(t) by {
        let i = choose|i: int| 0 <= i < ta.len() && #[trigger] ta[i].time == t;
        assert(ta[i] == a[i + 1]);
        assert(bucket_instants(a).contains(t));
        let j = choose|j: int| 0 <= j < b.len() && #[trigger] b[j].time == t;
        assert(instant_before(a[0].time, a[i + 1].time));
        assert(j != 0);
        assert(tb[j - 1] == b[j]);
    }
    assert forall|t: UtcInstant| bucket_instants(tb).contains(t) implies bucket_instants(ta).contains(t) by {
        let j = choose|j: int| 0 <= j < tb.len() && #[trigger] tb[j].time == t;
        assert(tb[j] == b[j + 1]);
        assert(bucket_instants(b).contains(t));
        let i = choose|i: int| 0 <= i < a.len() && #[trigger] a[i].time == t;
        assert(instant_before(b[0].time, b[j + 1].time));
        assert(i != 0);
        assert(ta[i - 1] == a[i]);
    }
    assert(bucket_instants(ta) =~= bucket_instants(tb));
}

proof fn lemma_sorted_instants_line_up(a: Seq<BucketView>, b: Seq<BucketView>)
    requires
        strictly_sorted(a),
        strictly_sorted(b),
        bucket_instants(a) == bucket_instants(b),
    ensures
        a.len() == b.len(),
        forall|i: int| 0 <= i < a.len() ==> #[trigger] a[i].time == b[i].time,
    decreases a.len(),
{
    if a.len() == 0 {
        if b.len() > 0 {
            assert(bucket_instants(b).contains(b[0].time));
            assert(bucket_instants(a).contains(b[0].time));
        }
    } else {
        lemma_first_instants_equal(a, b);
        lemma_tails_same_instants(a, b);
        lemma_sorted_tail(a);
        lemma_sorted_tail(b);
        let ta = a.drop_first();
        let tb = b.drop_first();
        lemma_sorted_instants_line_up(ta, tb);
        assert forall|i: int| 0 <= i < a.len() implies #[trigger] a[i].time == b[i].time by {
            if i > 0 {
                assert(ta[i - 1] == a[i] && tb[i - 1] == b[i]);
            }
        }
    }
}

proof fn lemma_bucket_instants_are_row_instants(rows: Seq<RowView>)
    ensures
        bucket_instants(bucket_rows(rows)) == instants(rows),
{
    let a = bucket_rows(rows);
    law_buckets_are_a_time_map(rows);
    assert forall|t: UtcInstant| bucket_instants(a).contains(t) implies instants(rows).contains(t) by {
        reveal(each_bucket_from_a_row);
        let i = choose|i: int| 0 <= i < a.len() && #[trigger] a[i].time == t;
        let k = choose|k: int| 0 <= k < rows.len() && #[trigger] rows[k].time == a[i].time;
    }
    assert forall|t: UtcInstant| instants(rows).contains(t) implies bucket_instants(a).contains(t) by {
        reveal(each_row_has_a_bucket);
        let k = choose|k: int| 0 <= k < rows.len() && #[trigger] rows[k].time == t;
        let i = choose|i: int| 0 <= i < a.len() && (#[trigger] a[i]).time == rows[k].time;
    }
    assert(bucket_instants(a) =~= instants(rows));
}

/// Bucketing depends on the rows only through the instants at which rows
/// are given and the last temperature and the last symbol given for each
/// instant.
pub proof fn law_buckets_follow_last_readings(rows1: Seq<RowView>, rows2: Seq<RowView>)
    requires
        instants(rows1) == instants(rows2),
        forall|t: UtcInstant| #[trigger] last_reading(rows1, t, "Temperature"@) == last_reading(rows2, t, "Temperature"@),
        forall|t: UtcInstant| #[trigger] last_reading(rows1, t, "WeatherSymbol3"@) == last_reading(rows2, t, "WeatherSymbol3"@),
    ensures
        bucket_rows(rows1) == bucket_rows(rows2),
{
    let a = bucket_rows(rows1);
    let b = bucket_rows(rows2);
    law_buckets_are_a_time_map(rows1);
    law_buckets_are_a_time_map(rows2);
    lemma_bucket_instants_are_row_instants(rows1);
    lemma_bucket_instants_are_row_instants(rows2);
    lemma_sorted_instants_line_up(a, b);
    assert forall|i: int| 0 <= i < a.len() implies #[trigger] a[i] == b[i] by {
        reveal(readings_are_last);
        assert(a[i].time == b[i].time);
        assert(last_reading(rows1, a[i].time, "Temperature"@) == last_reading(rows2, a[i].time, "Temperature"@));
        assert(last_reading(rows1, a[i].time, "WeatherSymbol3"@) == last_reading(rows2, a[i].time, "WeatherSymbol3"@));
    }
    assert(a =~= b);
}

proof fn lemma_last_reading_found(rows: Seq<RowView>, t: UtcInstant, name: Seq<char>)
    ensures
        last_reading(rows, t, name) is None <==> forall|i: int| 0 <= i < rows.len() ==> !((#[trigger] rows[i]).time == t && rows[i].name == name),
        last_reading(rows, t, name) matches Some(v) ==> exists|i: int| 0 <= i < rows.len() && (#[trigger] rows[i]).time == t && rows[i].name == name && rows[i].value == v,
    decreases rows.len(),
{
    if rows.len() > 0 {
        let n = rows.len() - 1;
        let front = rows.drop_last();
        lemma_last_reading_found(front, t, name);
        assert(rows.last() == rows[n]);
        assert forall|i: int| 0 <= i < n implies #[trigger] front[i] == rows[i] by {}
        if rows[n].time == t && rows[n].name == name {
        } else {
            if let Some(v) = last_reading(front, t, name) {
                let i = choose|i: int| 0 <= i < front.len() && (#[trigger] front[i]).time == t && front[i].name == name && front[i].value == v;
                assert(rows[i] == front[i]);
            } else {
                assert forall|i: int| 0 <= i < rows.len() implies !((#[trigger] rows[i]).time == t && rows[i].name == name) by {
                    if i < n {
                        assert(front[i] == rows[i]);
                    }
                }
            }
        }
    }
}

/// No two rows give the same parameter for the same instant.
pub open spec fn one_value_each(rows: Seq<RowView>) -> bool {
    forall|i: int, j: int| 0 <= i < j < rows.len() ==> !((#[trigger] rows[i]).time == (#[trigger] rows[j]).time && rows[i].name == rows[j].name)
}

proof fn lemma_same_last_reading(rows1: Seq<RowView>, rows2: Seq<RowView>, t: UtcInstant, name: Seq<char>)
    requires
        one_value_each(rows1),
        forall|i: int| 0 <= i < rows1.len() ==> rows2.contains(#[trigger] rows1[i]),
        forall|j: int| 0 <= j < rows2.len() ==> rows1.contains(#[trigger] rows2[j]),
    ensures
        last_reading(rows1, t, name) == last_reading(rows2, t, name),
{
    lemma_last_reading_found(rows1, t, name);
    lemma_last_reading_found(rows2, t, name);
    match last_reading(rows2, t, name) {
        Some(v2) => {
            let k = choose|k: int| 0 <= k < rows2.len() && (#[trigger] rows2[k]).time == t && rows2[k].name == name && rows2[k].value == v2;
            assert(rows1.contains(rows2[k]));
            let i = choose|i: int| 0 <= i < rows1.len() && rows1[i] == rows2[k];
            assert(rows1[i].time == t && rows1[i].name == name);
            if let Some(v1) = last_reading(rows1, t, name) {
                let i1 = choose|i1: int| 0 <= i1 < rows1.len() && (#[trigger] rows1[i1]).time == t && rows1[i1].name == name && rows1[i1].value == v1;
                if i1 < i {
                    assert(!(rows1[i1].time == rows1[i].time && rows1[i1].name == rows1[i].name));
                } else if i < i1 {
                    assert(!(rows1[i].time == rows1[i1].time && rows1[i].name == rows1[i1].name));
                }
            }
        },
        None => {
            if let Some(v1) = last_reading(rows1, t, name) {
                let i = choose|i: int| 0 <= i < rows1.len() && (#[trigger] rows1[i]).time == t && rows1[i].name == name && rows1[i].value == v1;
                assert(rows2.contains(rows1[i]));
                let k = choose|k: int| 0 <= k < rows2.len() && rows2[k] == rows1[i];
                assert(rows2[k].time == t && rows2[k].name == name);
            }
        },
    }
}

/// Reordering the rows changes neither the buckets nor the forecast, when
/// no two rows give the same parameter for the same instant.
pub proof fn law_row_order_irrelevant(place: Seq<char>, now: UtcInstant, rows1: Seq<RowView>, rows2: Seq<RowView>)
    requires
        rows1.to_multiset() == rows2.to_multiset(),
        one_value_each(rows1),
    ensures
        bucket_rows(rows1) == bucket_rows(rows2),
        forecast_plan(place, now, rows1) == forecast_plan(place, now, rows2),
{
    rows1.to_multiset_ensures();
    rows2.to_multiset_ensures();
    assert forall|i: int| 0 <= i < rows1.len() implies rows2.contains(#[trigger] rows1[i]) by {
        assert(rows1.contains(rows1[i]));
        assert(rows1.to_multiset().count(rows1[i]) > 0);
        assert(rows2.to_multiset().count(rows1[i]) > 0);
    }
    assert forall|j: int| 0 <= j < rows2.len() implies rows1.contains(#[trigger] rows2[j]) by {
        assert(rows2.contains(rows2[j]));
        assert(rows2.to_multiset().count(rows2[j]) > 0);
        assert(rows1.to_multiset().count(rows2[j]) > 0);
    }
    assert forall|t: UtcInstant| instants(rows1).contains(t) implies instants(rows2).contains(t) by {
        let i = choose|i: int| 0 <= i < rows1.len() && #[trigger] rows1[i].time == t;
        assert(rows2.contains(rows1[i]));
        let k = choose|k: int| 0 <= k < rows2.len() && rows2[k] == rows1[i];
        assert(rows2[k].time == t);
    }
    assert forall|t: UtcInstant| instants(rows2).contains(t) implies instants(rows1).contains(t) by {
        let k = choose|k: int| 0 <= k < rows2.len() && #[trigger] rows2[k].time == t;
        assert(rows1.contains(rows2[k]));
        let i = choose|i: int| 0 <= i < rows1.len() && rows1[i] == rows2[k];
        assert(rows1[i].time == t);
    }
    assert(instants(rows1) =~= instants(rows2));
    assert forall|t: UtcInstant| #[trigger] last_reading(rows1, t, "Temperature"@) == last_reading(rows2, t, "Temperature"@) by {
        lemma_same_last_reading(rows1, rows2, t, "Temperature"@);
    }
    assert forall|t: UtcInstant| #[trigger] last_reading(rows1, t, "WeatherSymbol3"@) == last_reading(rows2, t, "WeatherSymbol3"@) by {
        lemma_same_last_reading(rows1, rows2, t, "WeatherSymbol3"@);
    }
    law_buckets_follow_last_readings(rows1, rows2);
}

/// A row of one of the two parameters the forecast reads.
pub open spec fn known_parameter(r: RowView) -> bool {
    r.name == "Temperature"@ || r.name == "WeatherSymbol3"@
}

/// The rows of the parameters the forecast reads, in order.
pub open spec fn known_rows(rows: Seq<RowView>) -> Seq<RowView> {
    rows.filter(|r: RowView| known_parameter(r))
}

proof fn lemma_last_reading_of_known(rows: Seq<RowView>, t: UtcInstant, name: Seq<char>)
    requires
        name == "Temperature"@ || name == "WeatherSymbol3"@,
    ensures
        last_reading(rows, t, name) == last_reading(known_rows(rows), t, name),
    decreases rows.len(),
{
    reveal(Seq::filter);
    if rows.len() > 0 {
        lemma_last_reading_of_known(rows.drop_last(), t, name);
        let f = |r: RowView| known_parameter(r);
        assert(known_rows(rows) == if f(rows.last()) {
            known_rows(rows.drop_last()).push(rows.last())
        } else {
            known_rows(rows.drop_last())
        });
        if f(rows.last()) {
            lemma_last_reading_push(known_rows(rows.drop_last()), rows.last(), t, name);
        }
    }
}

/// Rows of parameters other than the temperature and the weather symbol
/// change neither the buckets nor the forecast, as long as they bring no
/// instant that the other rows do not have.
pub proof fn law_other_parameters_ignored(place: Seq<char>, now: UtcInstant, rows1: Seq<RowView>, rows2: Seq<RowView>)
    requires
        instants(rows1) == instants(rows2),
        known_rows(rows1) == known_rows(rows2),
    ensures
        bucket_rows(rows1) == bucket_rows(rows2),
        forecast_plan(place, now, rows1) == forecast_plan(place, now, rows2),
{
    assert forall|t: UtcInstant| #[trigger] last_reading(rows1, t, "Temperature"@) == last_reading(rows2, t, "Temperature"@) by {
        lemma_last_reading_of_known(rows1, t, "Temperature"@);
        lemma_last_reading_of_known(rows2, t, "Temperature"@);
    }
    assert forall|t: UtcInstant| #[trigger] last_reading(rows1, t, "WeatherSymbol3"@) == last_reading(rows2, t, "WeatherSymbol3"@) by {
        lemma_last_reading_of_known(rows1, t, "WeatherSymbol3"@);
        lemma_last_reading_of_known(rows2, t, "WeatherSymbol3"@);
    }
    law_buckets_follow_last_readings(rows1, rows2);
}

/// Text `v` is the value of one of the rows.
pub open spec fn is_row_value(rows: Seq<RowView>, v: Seq<char>) -> bool {
    exists|j: int| 0 <= j < rows.len() && #[trigger] rows[j].value == v
}

/// Every reading held by the buckets is the value of one of the rows.
spec fn bucket_texts_from(bs: Seq<BucketView>, rows: Seq<RowView>) -> bool {
    forall|i: int| 0 <= i < bs.len() ==> {
        &&& ((#[trigger] bs[i]).temp matches Some(v) ==> is_row_value(rows, v))
        &&& (bs[i].symbol matches Some(v) ==> is_row_value(rows, v))
    }
}

/// Every temperature, symbol and day temperature text of a plan satisfies
/// `ok`.
pub open spec fn plan_texts_all(p: PlanModel, ok: spec_fn(Seq<char>) -> bool) -> bool {
    &&& ok(p.current.temp)
    &&& (p.current.symbol matches Some(s) ==> ok(s))
    &&& forall|i: int| 0 <= i < p.future.len() ==> {
        &&& ok((#[trigger] p.future[i]).temp)
        &&& (p.future[i].symbol matches Some(s) ==> ok(s))
    }
    &&& forall|i: int| 0 <= i < p.days.len() ==> {
        &&& forall|k: int| 0 <= k < (#[trigger] p.days[i]).temps.len() ==> ok(#[trigger] p.days[i].temps[k])
        &&& (p.days[i].midday_symbol matches Some(s) ==> ok(s))
    }
}

/// A predicate that holds of every text of a plan holds of every text that
/// a weaker one would.
pub proof fn lemma_plan_texts_weaken(p: PlanModel, f: spec_fn(Seq<char>) -> bool, g: spec_fn(Seq<char>) -> bool)
    requires
        plan_texts_all(p, f),
        forall|v: Seq<char>| #[trigger] f(v) ==> g(v),
    ensures
        plan_texts_all(p, g),
{
    assert forall|i: int| 0 <= i < p.days.len() implies {
        &&& forall|k: int| 0 <= k < (#[trigger] p.days[i]).temps.len() ==> g(#[trigger] p.days[i].temps[k])
        &&& (p.days[i].midday_symbol matches Some(s) ==> g(s))
    } by {
        assert forall|k: int| 0 <= k < (#[trigger] p.days[i]).temps.len() implies g(#[trigger] p.days[i].temps[k]) by {
            assert(f(p.days[i].temps[k]));
        }
    }
}

proof fn lemma_bucket_texts_from_rows(rows: Seq<RowView>)
    ensures
        bucket_texts_from(bucket_rows(rows), rows),
{
    let bs = bucket_rows(rows);
    law_buckets_are_a_time_map(rows);
    assert forall|i: int| 0 <= i < bs.len() implies {
        &&& ((#[trigger] bs[i]).temp matches Some(v) ==> is_row_value(rows, v))
        &&& (bs[i].symbol matches Some(v) ==> is_row_value(rows, v))
    } by {
        reveal(readings_are_last);
        lemma_last_reading_found(rows, bs[i].time, "Temperature"@);
        lemma_last_reading_found(rows, bs[i].time, "WeatherSymbol3"@);
    }
}

proof fn lemma_day_temps_from(bs: Seq<BucketView>, rows: Seq<RowView>, day: i32)
    requires
        bucket_texts_from(bs, rows),
    ensures
        forall|k: int| 0 <= k < day_temps(bs, day).len() ==> is_row_value(rows, #[trigger] day_temps(bs, day)[k]),
    decreases bs.len(),
{
    if bs.len() > 0 {
        let front = bs.drop_last();
        assert forall|i: int| 0 <= i < front.len() implies {
            &&& ((#[trigger] front[i]).temp matches Some(v) ==> is_row_value(rows, v))
            &&& (front[i].symbol matches Some(v) ==> is_row_value(rows, v))
        } by {
            assert(front[i] == bs[i]);
        }
        lemma_day_temps_from(front, rows, day);
        let n = bs.len() - 1;
        assert(bs.last() == bs[n]);
        let earlier = day_temps(front, day);
        assert forall|k: int| 0 <= k < day_temps(bs, day).len() implies is_row_value(rows, #[trigger] day_temps(bs, day)[k]) by {
            if k < earlier.len() {
                assert(day_temps(bs, day)[k] == earlier[k]);
            } else {
                assert(bs[n].temp == Some(day_temps(bs, day)[k]));
            }
        }
    }
}

/// Every text of a forecast planned from rows is the value of one of the
/// rows: the plan passes readings on and makes none up.
pub proof fn law_plan_texts_come_from_rows(place: Seq<char>, now: UtcInstant, rows: Seq<RowView>)
    ensures
        forecast_plan(place, now, rows) matches Ok(p) ==> plan_texts_all(p, |v: Seq<char>| is_row_value(rows, v)),
{
    let bs = bucket_rows(rows);
    lemma_bucket_texts_from_rows(rows);
    if let Ok(p) = forecast_plan(place, now, rows) {
        lemma_closest_in_range(bs, now);
        let k = closest_index(bs, now);
        assert(bs[k] == bs[k]);
        let f2 = future_slot(bs, now, 2);
        let f4 = future_slot(bs, now, 4);
        let f6 = future_slot(bs, now, 6);
        lemma_closest_in_range(bs, hours_after(now, 2));
        lemma_closest_in_range(bs, hours_after(now, 4));
        lemma_closest_in_range(bs, hours_after(now, 6));
        assert(bs[closest_index(bs, hours_after(now, 2))] == bs[closest_index(bs, hours_after(now, 2))]);
        assert(bs[closest_index(bs, hours_after(now, 4))] == bs[closest_index(bs, hours_after(now, 4))]);
        assert(bs[closest_index(bs, hours_after(now, 6))] == bs[closest_index(bs, hours_after(now, 6))]);
        assert(p.future == f2 + f4 + f6);
        assert forall|i: int| 0 <= i < p.future.len() implies {
            &&& is_row_value(rows, (#[trigger] p.future[i]).temp)
            &&& (p.future[i].symbol matches Some(s) ==> is_row_value(rows, s))
        } by {
            if i < f2.len() {
                assert(p.future[i] == f2[i]);
            } else if i < f2.len() + f4.len() {
                assert(p.future[i] == f4[i - f2.len()]);
            } else {
                assert(p.future[i] == f6[i - f2.len() - f4.len()]);
            }
        }
        let d0 = day_slot(bs, now, 0);
        let d1 = day_slot(bs, now, 1);
        let d2 = day_slot(bs, now, 2);
        assert(p.days == d0 + d1 + d2);
        assert forall|i: int| 0 <= i < p.days.len() implies {
            &&& forall|k: int| 0 <= k < (#[trigger] p.days[i]).temps.len() ==> is_row_value(rows, #[trigger] p.days[i].temps[k])
            &&& (p.days[i].midday_symbol matches Some(s) ==> is_row_value(rows, s))
        } by {
            let off: int = if i < d0.len() {
                0
            } else if i < d0.len() + d1.len() {
                1
            } else {
                2
            };
            let slot = day_slot(bs, now, off);
            let j: int = if off == 0 {
                i
            } else if off == 1 {
                i - d0.len()
            } else {
                i - d0.len() - d1.len()
            };
            assert(p.days[i] == slot[j]);
            let day = (helsinki_day_number(now) + off) as i32;
            if let Some(noon) = helsinki_local_utc(day, 12, 0, 0) {
                lemma_day_temps_from(bs, rows, day);
                lemma_midday_from(bs, day, noon);
                if let Some((d, s)) = midday_from(bs, day, noon) {
                    let m = choose|m: int| {
                        &&& 0 <= m < bs.len()
                        &&& symbol_on(#[trigger] bs[m], day)
                        &&& bs[m].symbol == Some(s)
                        &&& d == distance(bs[m].time, noon)
                        &&& forall|j: int| 0 <= j < bs.len() && symbol_on(#[trigger] bs[j], day) ==> d <= distance(bs[j].time, noon)
                        &&& forall|j: int| 0 <= j < m && symbol_on(#[trigger] bs[j], day) ==> distance(bs[j].time, noon) > d
                    };
                    assert(bs[m] == bs[m]);
                }
            }
        }
    }
}

/// A bucket on day `day` that has a temperature.
pub open spec fn temp_on(b: BucketView, day: i32) -> bool {
    on_day(b, day) && b.temp is Some
}

/// The temperatures of a day are those of the buckets that fall on it and
/// have one, in time order: the set whose minimum and maximum the widget
/// shows.
pub proof fn law_day_temps(bs: Seq<BucketView>, day: i32)
    ensures
        day_temps(bs, day) == bs.filter(|b: BucketView| temp_on(b, day)).map_values(|b: BucketView| b.temp->0),
    decreases bs.len(),
{
    reveal(Seq::filter);
    if bs.len() > 0 {
        law_day_temps(bs.drop_last(), day);
        let f = |b: BucketView| temp_on(b, day);
        let g = |b: BucketView| b.temp->0;
        let front = bs.drop_last().filter(f);
        assert(bs.filter(f) == if f(bs.last()) {
            front.push(bs.last())
        } else {
            front
        });
        if f(bs.last()) {
            assert(front.push(bs.last()).map_values(g) =~= front.map_values(g).push(g(bs.last())));
        }
    }
}

/// The plan fails with "no usable forecast rows" exactly when there are no
/// rows: every row, whatever its parameter, opens a bucket for its instant.
pub proof fn law_no_rows_error(place: Seq<char>, now: UtcInstant, rows: Seq<RowView>)
    ensures
        forecast_plan(place, now, rows) == Err::<PlanModel, Seq<char>>("no usable forecast rows"@) <==> rows.len() == 0,
{
    reveal_strlit("no usable forecast rows");
    reveal_strlit("Temperature missing for current row");
    assert("no usable forecast rows"@ != "Temperature missing for current row"@) by {
        assert("no usable forecast rows"@.len() != "Temperature missing for current row"@.len());
    }
    law_buckets_are_a_time_map(rows);
    if rows.len() > 0 {
        reveal(each_row_has_a_bucket);
        assert(rows[0] == rows[0]);
        let i = choose|i: int| 0 <= i < bucket_rows(rows).len() && (#[trigger] bucket_rows(rows)[i]).time == rows[0].time;
    }
}

/// The "now" reading: the earliest of the buckets nearest to `now`, with
/// the last temperature and symbol given for its instant; without a
/// temperature there the plan fails with "Temperature missing for current
/// row".
pub proof fn law_current_reading(place: Seq<char>, now: UtcInstant, rows: Seq<RowView>)
    requires
        rows.len() > 0,
    ensures
        ({
            let bs = bucket_rows(rows);
            let k = closest_index(bs, now);
            let t = bs[k].time;
            &&& 0 <= k < bs.len()
            &&& forall|j: int| 0 <= j < bs.len() ==> distance(t, now) <= distance(#[trigger] bs[j].time, now)
            &&& forall|j: int| 0 <= j < bs.len() && instant_before(bs[j].time, t) ==> distance(#[trigger] bs[j].time, now) > distance(t, now)
            &&& match last_reading(rows, t, "Temperature"@) {
                None => forecast_plan(place, now, rows) == Err::<PlanModel, Seq<char>>("Temperature missing for current row"@),
                Some(temp) => forecast_plan(place, now, rows) matches Ok(p) && p.current == (CurrentModel {
                    label: "Now"@,
                    symbol: last_reading(rows, t, "WeatherSymbol3"@),
                    temp: temp,
                    weekday: weekday_label_of(t),
                }),
            }
        }),
{
    let bs = bucket_rows(rows);
    law_no_rows_error(place, now, rows);
    law_buckets_are_a_time_map(rows);
    if bs.len() == 0 {
        reveal(each_row_has_a_bucket);
        assert(rows[0] == rows[0]);
    }
    law_nearest_bucket(bs, now);
    let k = closest_index(bs, now);
    assert(bs[k] == bs[k]);
    assert(bs[k].temp == last_reading(rows, bs[k].time, "Temperature"@)) by {
        reveal(readings_are_last);
    }
    assert(bs[k].symbol == last_reading(rows, bs[k].time, "WeatherSymbol3"@)) by {
        reveal(readings_are_last);
    }
    assert forall|j: int| 0 <= j < bs.len() && instant_before(bs[j].time, bs[k].time) implies distance(#[trigger] bs[j].time, now) > distance(bs[k].time, now) by {
        reveal(strictly_sorted);
        if j > k {
            assert(instant_before(bs[k].time, bs[j].time));
        } else if j == k {
        }
    }
}

/// The place names the forecast and changes nothing else: two places give
/// the same error, or plans that differ only in their location.
pub proof fn law_place_only_names(place1: Seq<char>, place2: Seq<char>, now: UtcInstant, rows: Seq<RowView>)
    ensures
        match (forecast_plan(place1, now, rows), forecast_plan(place2, now, rows)) {
            (Err(a), Err(b)) => a == b,
            (Ok(a), Ok(b)) => b == (PlanModel { location: capitalised(place2), ..a }),
            _ => false,
        },
{
}

/// The reading `h` hours ahead: the earliest of the buckets nearest to
/// `now` plus `h` hours, with the last temperature and symbol given for its
/// instant; it is left out when that bucket has no temperature.
pub proof fn law_reading_ahead(now: UtcInstant, rows: Seq<RowView>, h: u32)
    requires
        rows.len() > 0,
    ensures
        ({
            let bs = bucket_rows(rows);
            let target = hours_after(now, h as int);
            let k = closest_index(bs, target);
            let t = bs[k].time;
            &&& 0 <= k < bs.len()
            &&& forall|j: int| 0 <= j < bs.len() ==> distance(t, target) <= distance(#[trigger] bs[j].time, target)
            &&& forall|j: int| 0 <= j < bs.len() && instant_before(bs[j].time, t) ==> distance(#[trigger] bs[j].time, target) > distance(t, target)
            &&& future_slot(bs, now, h) == match last_reading(rows, t, "Temperature"@) {
                None => Seq::<FutureModel>::empty(),
                Some(temp) => seq![
                    FutureModel {
                        label: future_label(h),
                        symbol: last_reading(rows, t, "WeatherSymbol3"@),
                        temp: temp,
                        plus_hours: h,
                        weekday: weekday_label_of(t),
                    },
                ],
            }
        }),
{
    let bs = bucket_rows(rows);
    let target = hours_after(now, h as int);
    law_buckets_are_a_time_map(rows);
    if bs.len() == 0 {
        reveal(each_row_has_a_bucket);
        assert(rows[0] == rows[0]);
    }
    law_nearest_bucket(bs, target);
    let k = closest_index(bs, target);
    assert(bs[k] == bs[k]);
    assert(bs[k].temp == last_reading(rows, bs[k].time, "Temperature"@)) by {
        reveal(readings_are_last);
    }
    assert(bs[k].symbol == last_reading(rows, bs[k].time, "WeatherSymbol3"@)) by {
        reveal(readings_are_last);
    }
    assert forall|j: int| 0 <= j < bs.len() && instant_before(bs[j].time, bs[k].time) implies distance(#[trigger] bs[j].time, target) > distance(bs[k].time, target) by {
        reveal(strictly_sorted);
        if j > k {
            assert(instant_before(bs[k].time, bs[j].time));
        }
    }
}

/// `s` is the weather symbol nearest to `noon` among the buckets on day
/// `day` that have one, the earliest of those equally near; or there is
/// none, and no bucket of that day has a symbol.
pub open spec fn nearest_noon_symbol(bs: Seq<BucketView>, day: i32, noon: UtcInstant, s: Option<Seq<char>>) -> bool {
    match s {
        None => forall|j: int| 0 <= j < bs.len() ==> !symbol_on(#[trigger] bs[j], day),
        Some(sym) => exists|k: int| {
            &&& 0 <= k < bs.len()
            &&& symbol_on(#[trigger] bs[k], day)
            &&& bs[k].symbol == Some(sym)
            &&& forall|j: int| 0 <= j < bs.len() && symbol_on(#[trigger] bs[j], day) ==> distance(bs[k].time, noon) <= distance(bs[j].time, noon)
            &&& forall|j: int| 0 <= j < k && symbol_on(#[trigger] bs[j], day) ==> distance(bs[j].time, noon) > distance(bs[k].time, noon)
        },
    }
}

/// The summary of the local day `r` days after today's: present exactly
/// when that day's local noon is one instant, labelled by `r`, holding the
/// temperatures of that day's buckets in time order and the symbol nearest
/// its local noon.
pub open spec fn summarises_day(bs: Seq<BucketView>, now: UtcInstant, r: int, m: DayModel) -> bool {
    let day = (helsinki_day_number(now) + r) as i32;
    &&& m.label == day_label(r)
    &&& m.temps == bs.filter(|b: BucketView| temp_on(b, day)).map_values(|b: BucketView| b.temp->0)
    &&& helsinki_local_utc(day, 12, 0, 0) matches Some(noon) && nearest_noon_symbol(bs, day, noon, m.midday_symbol)
}

proof fn lemma_slot_summary(bs: Seq<BucketView>, now: UtcInstant, off: int)
    requires
        0 <= off <= 2,
    ensures
        day_slot(bs, now, off).len() <= 1,
        day_slot(bs, now, off).len() == 1 <==> helsinki_local_utc((helsinki_day_number(now) + off) as i32, 12, 0, 0) is Some,
        day_slot(bs, now, off).len() == 1 ==> summarises_day(bs, now, off, day_slot(bs, now, off)[0]),
{
    let day = (helsinki_day_number(now) + off) as i32;
    if let Some(noon) = helsinki_local_utc(day, 12, 0, 0) {
        let m = day_slot(bs, now, off)[0];
        law_day_temps(bs, day);
        lemma_midday_from(bs, day, noon);
        if let Some((d, s)) = midday_from(bs, day, noon) {
            let k = choose|k: int| {
                &&& 0 <= k < bs.len()
                &&& symbol_on(#[trigger] bs[k], day)
                &&& bs[k].symbol == Some(s)
                &&& d == distance(bs[k].time, noon)
                &&& forall|j: int| 0 <= j < bs.len() && symbol_on(#[trigger] bs[j], day) ==> d <= distance(bs[j].time, noon)
                &&& forall|j: int| 0 <= j < k && symbol_on(#[trigger] bs[j], day) ==> distance(bs[j].time, noon) > d
            };
            assert(symbol_on(bs[k], day));
        }
        assert(nearest_noon_symbol(bs, day, noon, m.midday_symbol));
    }
}

/// Some daily summary has rank `r`.
pub open spec fn has_rank(days: Seq<DayModel>, r: int) -> bool {
    exists|i: int| 0 <= i < days.len() && day_rank(#[trigger] days[i].label) == r
}

/// The daily summaries of a plan: each one, labelled by its rank `r`
/// (today 0, tomorrow 1, the day after 2), summarises the local day whose
/// number is today's plus `r`; and there is one of rank `r` exactly when
/// that day's local noon is one instant.
pub proof fn law_day_summaries(place: Seq<char>, now: UtcInstant, rows: Seq<RowView>)
    ensures
        forecast_plan(place, now, rows) matches Ok(p) ==> {
            &&& forall|i: int| 0 <= i < p.days.len() ==> {
                &&& 0 <= day_rank((#[trigger] p.days[i]).label) <= 2
                &&& summarises_day(bucket_rows(rows), now, day_rank(p.days[i].label), p.days[i])
            }
            &&& has_rank(p.days, 0) <==> helsinki_local_utc(helsinki_day_number(now), 12, 0, 0) is Some
            &&& has_rank(p.days, 1) <==> helsinki_local_utc((helsinki_day_number(now) + 1) as i32, 12, 0, 0) is Some
            &&& has_rank(p.days, 2) <==> helsinki_local_utc((helsinki_day_number(now) + 2) as i32, 12, 0, 0) is Some
        },
{
    let bs = bucket_rows(rows);
    if let Ok(p) = forecast_plan(place, now, rows) {
        reveal_strlit("Today");
        reveal_strlit("Tomorrow");
        reveal_strlit("Day after");
        assert("Today"@ != "Tomorrow"@) by {
            assert("Today"@.len() != "Tomorrow"@.len());
        }
        assert("Today"@ != "Day after"@) by {
            assert("Today"@.len() != "Day after"@.len());
        }
        assert("Tomorrow"@ != "Day after"@) by {
            assert("Tomorrow"@.len() != "Day after"@.len());
        }
        assert(day_rank(day_label(0)) == 0);
        assert(day_rank(day_label(1)) == 1);
        assert(day_rank(day_label(2)) == 2);
        lemma_slot_summary(bs, now, 0);
        lemma_slot_summary(bs, now, 1);
        lemma_slot_summary(bs, now, 2);
        let a = day_slot(bs, now, 0);
        let b = day_slot(bs, now, 1);
        let c = day_slot(bs, now, 2);
        let d = p.days;
        assert(d == a + b + c);
        assert forall|i: int| 0 <= i < d.len() implies {
            &&& 0 <= day_rank((#[trigger] d[i]).label) <= 2
            &&& summarises_day(bs, now, day_rank(d[i].label), d[i])
            &&& (i < a.len() ==> day_rank(d[i].label) == 0)
            &&& (a.len() <= i < a.len() + b.len() ==> day_rank(d[i].label) == 1)
            &&& (a.len() + b.len() <= i ==> day_rank(d[i].label) == 2)
        } by {
            if i < a.len() {
                assert(d[i] == a[0]);
            } else if i < a.len() + b.len() {
                assert(d[i] == b[0]);
            } else {
                assert(d[i] == c[0]);
            }
        }
        if a.len() == 1 {
            assert(day_rank(d[0].label) == 0);
        }
        if b.len() == 1 {
            assert(day_rank(d[a.len() as int].label) == 1);
        }
        if c.len() == 1 {
            assert(day_rank(d[(a.len() + b.len()) as int].label) == 2);
        }
        assert((helsinki_day_number(now) + 0) as i32 == helsinki_day_number(now));
    }
}

} // verus!
