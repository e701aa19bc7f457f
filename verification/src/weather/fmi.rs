//! The Finnish Meteorological Institute Open Data WFS provider: which query
//! it sends, and how the answer becomes a forecast plan.
//!
//! The provider asks the stored query
//! `fmi::forecast::edited::weather::scandinavia::point::simple` for the
//! parameters `Temperature,WeatherSymbol3`, hourly, from one hour before
//! "now" to `HORIZON_HOURS` hours after it; the server resolves the place
//! name to coordinates.
use vstd::prelude::*;
use chrono::DateTime;
use crate::text::capitalised;
use crate::time::{UtcInstant, chrono_instant, in_chrono_range, hours_after, add_hours, shifted_secs, CHRONO_MIN_SECS, CHRONO_MAX_SECS};
use crate::weather::feed::{RowView, XmlEventView, rows_of_events, row_ok, value_ok, rows_view, xml_tokens, parse_simple_features};
use crate::weather::plan::{
    ForecastPlan, PlanModel, build_forecast, forecast_plan, same_plan, usable_now, is_row_value,
    plan_texts_all, law_plan_texts_come_from_rows, lemma_plan_texts_weaken, law_no_rows_error,
};

verus! {

/// How far ahead the query reaches: "day after" in Helsinki local time is
/// at most about 71 hours away, plus a margin.
pub const HORIZON_HOURS: i64 = 84;

/// The stored query the provider asks for.
pub open spec fn stored_query() -> Seq<char> {
    "fmi::forecast::edited::weather::scandinavia::point::simple"@
}

/// The time span of the query: from one hour before `now`, so that the
/// answer holds a row before "now", to `HORIZON_HOURS` after it.
/// chrono panics when either end leaves its range, so both must lie in it.
pub fn forecast_window(now: UtcInstant) -> (r: (UtcInstant, UtcInstant))
    requires
        in_chrono_range(now),
        CHRONO_MIN_SECS <= shifted_secs(now, -1),
        shifted_secs(now, HORIZON_HOURS as int) <= CHRONO_MAX_SECS,
    ensures
        r.0 == hours_after(now, -1),
        r.1 == hours_after(now, HORIZON_HOURS as int),
        in_chrono_range(r.0),
        in_chrono_range(r.1),
{
    (add_hours(now, -1), add_hours(now, HORIZON_HOURS))
}

/// A chrono format string made of literal characters and the fields `%Y`,
/// `%m`, `%d`, `%H`, `%M` and `%S` only: one that chrono can always write.
pub open spec fn simple_format(f: Seq<char>) -> bool
    decreases f.len(),
{
    if f.len() == 0 {
        true
    } else if f[0] == '%' {
        &&& f.len() >= 2
        &&& f[1] == 'Y' || f[1] == 'm' || f[1] == 'd' || f[1] == 'H' || f[1] == 'M' || f[1] == 'S'
        &&& simple_format(f.subrange(2, f.len() as int))
    } else {
        simple_format(f.drop_first())
    }
}

/// What chrono's `format(fmt)` writes for instant `t` in UTC.
pub uninterp spec fn chrono_format_utc(t: UtcInstant, fmt: Seq<char>) -> Seq<char>;

/// chrono: `DateTime::from_timestamp` then `format(fmt).to_string()`. The
/// writing fails, and `to_string` panics, only on a format string chrono
/// cannot read, which `simple_format` rules out.
#[verifier::external_body]
pub(crate) fn format_utc(t: UtcInstant, fmt: &str) -> (r: String)
    requires
        in_chrono_range(t),
        simple_format(fmt@),
    ensures
        r@ == chrono_format_utc(t, fmt@),
{
    let dt = DateTime::from_timestamp(t.secs, t.nanos).unwrap();
    dt.format(fmt).to_string()
}

/// The form of the query's instants that the WFS accepts:
/// `YYYY-MM-DDTHH:MM:SSZ`.
pub open spec fn wfs_time_format() -> Seq<char> {
    "%Y-%m-%dT%H:%M:%SZ"@
}

/// The query string pairs of the WFS request for `place` over the instants
/// `start` to `end`.
pub open spec fn query_pairs(place: Seq<char>, start: UtcInstant, end: UtcInstant) -> Seq<
    (Seq<char>, Seq<char>),
> {
    seq![
        ("service"@, "WFS"@),
        ("version"@, "2.0.0"@),
        ("request"@, "getFeature"@),
        ("storedquery_id"@, stored_query()),
        ("place"@, place),
        ("parameters"@, "Temperature,WeatherSymbol3"@),
        ("timestep"@, "60"@),
        ("starttime"@, chrono_format_utc(start, wfs_time_format())),
        ("endtime"@, chrono_format_utc(end, wfs_time_format())),
    ]
}

/// The pairs as plain values.
pub open spec fn pairs_view(v: Seq<(String, String)>) -> Seq<(Seq<char>, Seq<char>)> {
    v.map_values(|p: (String, String)| (p.0@, p.1@))
}

fn pair(k: &str, v: String) -> (r: (String, String))
    ensures
        r.0@ == k@,
        r.1@ == v@,
{
    (String::from_str(k), v)
}

/// The query string of the WFS request for `place` over `start` to `end`.
pub fn query_params(place: &str, start: UtcInstant, end: UtcInstant) -> (r: Vec<(String, String)>)
    requires
        in_chrono_range(start),
        in_chrono_range(end),
    ensures
        pairs_view(r@) == query_pairs(place@, start, end),
{
    let mut q: Vec<(String, String)> = Vec::new();
    q.push(pair("service", String::from_str("WFS")));
    q.push(pair("version", String::from_str("2.0.0")));
    q.push(pair("request", String::from_str("getFeature")));
    q.push(
        pair(
            "storedquery_id",
            String::from_str("fmi::forecast::edited::weather::scandinavia::point::simple"),
        ),
    );
    q.push(pair("place", String::from_str(place)));
    q.push(pair("parameters", String::from_str("Temperature,WeatherSymbol3")));
    q.push(pair("timestep", String::from_str("60")));
    let fmt = "%Y-%m-%dT%H:%M:%SZ";
    proof {
        reveal_strlit("%Y-%m-%dT%H:%M:%SZ");
        reveal_with_fuel(simple_format, 16);
    }
    assert(simple_format(fmt@));
    q.push(pair("starttime", format_utc(start, fmt)));
    q.push(pair("endtime", format_utc(end, fmt)));
    assert(pairs_view(q@) =~= query_pairs(place@, start, end));
    q
}

/// The error when the answer holds no rows.
pub open spec fn no_rows_message(place: Seq<char>) -> Seq<char> {
    "FMI returned no rows for '"@ + place + "' - is the place name spelled correctly?"@
}

/// The forecast plan for `place` at `now` from the rows of an answer: an
/// error when there are none.
pub open spec fn plan_from_rows(place: Seq<char>, now: UtcInstant, rows: Seq<RowView>) -> Result<
    PlanModel,
    Seq<char>,
> {
    if rows.len() == 0 {
        Err(no_rows_message(place))
    } else {
        forecast_plan(place, now, rows)
    }
}

/// The forecast plan for `place` at `now` from the tokens of an answer.
pub open spec fn plan_from_events(place: Seq<char>, now: UtcInstant, evs: Seq<XmlEventView>) -> Result<
    PlanModel,
    Seq<char>,
> {
    match rows_of_events(evs) {
        Err(m) => Err(m),
        Ok(rows) => plan_from_rows(place, now, rows),
    }
}

/// Turns the WFS answer `xml` for `place` into the forecast plan at `now`:
/// the feed is read into rows (a reading error is handed on as it is), an
/// answer without rows is an error naming the place, and the rows are
/// planned by `build_forecast`. Every text of the plan reads as a float and
/// is not `NaN`.
pub fn forecast_from_feed(place: &str, now: UtcInstant, xml: &str) -> (r: Result<ForecastPlan, String>)
    requires
        usable_now(now),
    ensures
        same_plan(r, plan_from_events(place@, now, xml_tokens(xml@))),
        r matches Ok(p) ==> plan_texts_all(p@, |v: Seq<char>| value_ok(v)),
        r matches Ok(p) ==> p.location@ == capitalised(place@),
{
    let rows = match parse_simple_features(xml) {
        Ok(rows) => rows,
        Err(e) => {
            return Err(e);
        },
    };
    if rows.len() == 0 {
        let mut msg = String::from_str("FMI returned no rows for '");
        msg.append(place);
        msg.append("' - is the place name spelled correctly?");
        return Err(msg);
    }
    assert forall|i: int| 0 <= i < rows@.len() implies chrono_instant(#[trigger] rows@[i].time) by {
        assert(row_ok(rows@[i]@));
    }
    let r = build_forecast(place, now, &rows);
    proof {
        let rv = rows_view(rows@);
        law_plan_texts_come_from_rows(place@, now, rv);
        assert forall|v: Seq<char>| #[trigger] is_row_value(rv, v) implies value_ok(v) by {
            let j = choose|j: int| 0 <= j < rv.len() && #[trigger] rv[j].value == v;
            assert(rv[j] == rows@[j]@);
            assert(row_ok(rows@[j]@));
        }
        if r is Ok {
            lemma_plan_texts_weaken(r->Ok_0@, |v: Seq<char>| is_row_value(rv, v), |v: Seq<char>| value_ok(v));
        }
    }
    r
}

/// The forecast names the place that was asked for, capitalised, whatever
/// the answer held; an answer without rows names it in its error.
pub proof fn law_plan_names_the_place(place: Seq<char>, now: UtcInstant, evs: Seq<XmlEventView>)
    ensures
        plan_from_events(place, now, evs) matches Ok(p) ==> p.location == capitalised(place),
        rows_of_events(evs) matches Ok(rows) ==> (rows.len() == 0 <==> plan_from_events(place, now, evs)
            == Err::<PlanModel, Seq<char>>(no_rows_message(place))),
{
    if let Ok(rows) = rows_of_events(evs) {
        if rows.len() > 0 {
            law_no_rows_error(place, now, rows);
            if let Err(m) = forecast_plan(place, now, rows) {
                reveal_strlit("no usable forecast rows");
                reveal_strlit("Temperature missing for current row");
                reveal_strlit("FMI returned no rows for '");
                assert(m == "no usable forecast rows"@ || m == "Temperature missing for current row"@);
                assert(no_rows_message(place).len() > m.len() || no_rows_message(place)[0] != m[0]);
            }
        }
    }
}


} // verus!
