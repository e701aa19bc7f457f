use chrono::{DateTime, Datelike, TimeDelta};
use chrono_tz::Europe::Helsinki;
use sys_dashboard::time::{weekday_label_local, UtcInstant, CHRONO_MAX_SECS, CHRONO_MIN_SECS};
use sys_dashboard::weather::feed::Row;
use sys_dashboard::weather::fmi::{forecast_from_feed, forecast_window, query_params};
use sys_dashboard::weather::plan::{bucket_rows_of, build_forecast, distance_of};

// 2026-06-14T12:00:00Z, a Sunday; Helsinki is at UTC+3 in June.
const NOON_UTC_JUNE_14: i64 = 1_781_438_400;
const HOUR: i64 = 3600;

fn at(secs: i64) -> UtcInstant {
    UtcInstant { secs, nanos: 0 }
}

fn row(secs: i64, name: &str, value: &str) -> Row {
    Row { time: at(secs), name: name.to_string(), value: value.to_string() }
}

fn june_rows() -> Vec<Row> {
    let base = NOON_UTC_JUNE_14;
    vec![
        row(base - 4 * HOUR, "Temperature", "10"),
        row(base - 4 * HOUR, "WeatherSymbol3", "1"),
        row(base - 3 * HOUR, "Temperature", "11"),
        row(base - 3 * HOUR, "WeatherSymbol3", "2"),
        row(base - 2 * HOUR, "Temperature", "12"),
        row(base - HOUR, "Temperature", "13"),
        row(base - HOUR, "WeatherSymbol3", "31"),
        row(base, "Temperature", "14"),
        row(base + 3 * HOUR, "Temperature", "16"),
        row(base + 3 * HOUR, "WeatherSymbol3", "3"),
        row(base + 21 * HOUR, "Temperature", "9"),
        row(base + 21 * HOUR, "WeatherSymbol3", "91"),
        row(base + 9 * HOUR, "Temperature", "8.5"),
    ]
}

#[test]
fn weekday_is_local_helsinki() {
    assert_eq!(weekday_label_local(at(NOON_UTC_JUNE_14)), "Sun");
    // 21:30 UTC on Sunday is already Monday 00:30 in Helsinki.
    assert_eq!(weekday_label_local(at(NOON_UTC_JUNE_14 + 9 * HOUR + 1800)), "Mon");
    assert_eq!(weekday_label_local(at(0)), "Thu");
}

#[test]
fn buckets_are_one_per_instant_in_order_with_last_values() {
    let rows = vec![
        row(300, "Temperature", "1"),
        row(100, "WeatherSymbol3", "2"),
        row(300, "Temperature", "3"),
        row(200, "Pressure", "1000"),
        row(100, "Temperature", "4"),
    ];
    let bs = bucket_rows_of(&rows);
    assert_eq!(bs.len(), 3);
    assert_eq!(bs[0].time.secs, 100);
    assert_eq!(bs[0].temp.as_deref(), Some("4"));
    assert_eq!(bs[0].symbol.as_deref(), Some("2"));
    assert_eq!(bs[1].time.secs, 200);
    assert_eq!(bs[1].temp, None);
    assert_eq!(bs[1].symbol, None);
    assert_eq!(bs[2].time.secs, 300);
    assert_eq!(bs[2].temp.as_deref(), Some("3"));
}

#[test]
fn plan_picks_nearest_readings() {
    // "now" is 09:30 UTC: 09:00 and 10:00 are equally near, the earlier wins.
    let now = UtcInstant { secs: NOON_UTC_JUNE_14 - 2 * HOUR - 1800, nanos: 0 };
    let plan = build_forecast("kajaani", now, &june_rows()).expect("plan");
    assert_eq!(plan.location, "Kajaani");
    assert_eq!(plan.current.label, "Now");
    assert_eq!(plan.current.temp, "11");
    assert_eq!(plan.current.symbol.as_deref(), Some("2"));
    assert_eq!(plan.current.weekday, "Sun");

    // +2 h is 11:30: 11:00 and 12:00 tie, 11:00 wins. +4 h is 13:30: 12:00.
    // +6 h is 15:30: 15:00.
    assert_eq!(plan.future.len(), 3);
    assert_eq!(plan.future[0].label, "In 2 hours");
    assert_eq!(plan.future[0].plus_hours, 2);
    assert_eq!(plan.future[0].temp, "13");
    assert_eq!(plan.future[0].symbol.as_deref(), Some("31"));
    assert_eq!(plan.future[1].label, "In 4 hours");
    assert_eq!(plan.future[1].temp, "14");
    assert_eq!(plan.future[1].symbol, None);
    assert_eq!(plan.future[2].label, "In 6 hours");
    assert_eq!(plan.future[2].temp, "16");
    assert_eq!(plan.future[2].weekday, "Sun");
}

#[test]
fn plan_groups_days_in_helsinki_time() {
    let now = at(NOON_UTC_JUNE_14 - 2 * HOUR - 1800);
    let plan = build_forecast("Oulu", now, &june_rows()).expect("plan");
    assert_eq!(plan.days.len(), 3);
    assert_eq!(plan.days[0].label, "Today");
    // Local noon on the 14th is 09:00 UTC: symbol "2" there.
    assert_eq!(plan.days[0].temps, vec!["10", "11", "12", "13", "14", "16"]);
    assert_eq!(plan.days[0].midday_symbol.as_deref(), Some("2"));
    assert_eq!(plan.days[1].label, "Tomorrow");
    // 09:00 UTC on the 15th (local noon) and 21:00 UTC on the 14th, which
    // is 00:00 on the 15th locally.
    assert_eq!(plan.days[1].temps, vec!["8.5", "9"]);
    assert_eq!(plan.days[1].midday_symbol.as_deref(), Some("91"));
    assert_eq!(plan.days[2].label, "Day after");
    assert!(plan.days[2].temps.is_empty());
    assert_eq!(plan.days[2].midday_symbol, None);
}

#[test]
fn slot_without_temperature_is_left_out() {
    let now = at(NOON_UTC_JUNE_14);
    let rows = vec![
        row(NOON_UTC_JUNE_14, "Temperature", "20"),
        row(NOON_UTC_JUNE_14 + 2 * HOUR, "WeatherSymbol3", "1"),
        row(NOON_UTC_JUNE_14 + 6 * HOUR, "Temperature", "17"),
    ];
    let plan = build_forecast("x", now, &rows).expect("plan");
    // +2 h lands on the symbol-only bucket; +4 h is as near to it as to
    // 18:00 and the earlier bucket wins, so only +6 h has a temperature.
    assert_eq!(plan.future.len(), 1);
    assert_eq!(plan.future[0].plus_hours, 6);
    assert_eq!(plan.future[0].temp, "17");
    assert_eq!(plan.future[0].label, "In 6 hours");
}

#[test]
fn plan_errors() {
    let now = at(NOON_UTC_JUNE_14);
    assert_eq!(build_forecast("x", now, &Vec::new()).err().unwrap(), "no usable forecast rows");
    let rows = vec![row(NOON_UTC_JUNE_14, "WeatherSymbol3", "1")];
    assert_eq!(
        build_forecast("x", now, &rows).err().unwrap(),
        "Temperature missing for current row"
    );
}

#[test]
fn feed_to_plan() {
    let xml = "<a><BsWfsElement><Time>2026-06-14T12:00:00Z</Time>\
               <ParameterName>Temperature</ParameterName>\
               <ParameterValue>15.5</ParameterValue></BsWfsElement></a>";
    let plan = forecast_from_feed("helsinki", at(NOON_UTC_JUNE_14 + 60), xml).expect("plan");
    assert_eq!(plan.location, "Helsinki");
    assert_eq!(plan.current.temp, "15.5");
    assert_eq!(plan.future.len(), 3);
    assert_eq!(plan.days.len(), 3);
    assert_eq!(plan.days[0].temps, vec!["15.5"]);
}

#[test]
fn feed_without_rows_names_the_place() {
    let err = forecast_from_feed("Nowhere", at(NOON_UTC_JUNE_14), "<a></a>").err().unwrap();
    assert_eq!(err, "FMI returned no rows for 'Nowhere' - is the place name spelled correctly?");
}

#[test]
fn query_window_and_params() {
    let now = UtcInstant { secs: NOON_UTC_JUNE_14, nanos: 5 };
    let (start, end) = forecast_window(now);
    assert_eq!(start.secs, NOON_UTC_JUNE_14 - HOUR);
    assert_eq!(end.secs, NOON_UTC_JUNE_14 + 84 * HOUR);
    let q = query_params("Kajaani", start, end);
    let pairs: Vec<(&str, &str)> = q.iter().map(|(k, v)| (k.as_str(), v.as_str())).collect();
    assert_eq!(
        pairs,
        vec![
            ("service", "WFS"),
            ("version", "2.0.0"),
            ("request", "getFeature"),
            ("storedquery_id", "fmi::forecast::edited::weather::scandinavia::point::simple"),
            ("place", "Kajaani"),
            ("parameters", "Temperature,WeatherSymbol3"),
            ("timestep", "60"),
            ("starttime", "2026-06-14T11:00:00Z"),
            ("endtime", "2026-06-18T00:00:00Z"),
        ]
    );
}

#[test]
fn window_moves_like_chrono_even_from_a_leap_second() {
    let samples = [
        UtcInstant { secs: NOON_UTC_JUNE_14 + 59, nanos: 1_500_000_000 },
        UtcInstant { secs: NOON_UTC_JUNE_14, nanos: 0 },
        UtcInstant { secs: -1, nanos: 1_000_000_000 },
        UtcInstant { secs: 7, nanos: 999_999_999 },
    ];
    for now in samples {
        let (start, end) = forecast_window(now);
        let dt = DateTime::from_timestamp(now.secs, now.nanos).unwrap();
        let s = dt + TimeDelta::hours(-1);
        let e = dt + TimeDelta::hours(84);
        assert_eq!((start.secs, start.nanos), (s.timestamp(), s.timestamp_subsec_nanos()));
        assert_eq!((end.secs, end.nanos), (e.timestamp(), e.timestamp_subsec_nanos()));
    }
}

#[test]
fn weekday_agrees_with_chrono_tz_across_years() {
    let names = ["Mon", "Tue", "Wed", "Thu", "Fri", "Sat", "Sun"];
    let mut secs: i64 = -62_000_000_000;
    while secs < 253_000_000_000 {
        let dt = DateTime::from_timestamp(secs, 0).unwrap();
        let expected = names[dt.with_timezone(&Helsinki).weekday().num_days_from_monday() as usize];
        assert_eq!(weekday_label_local(at(secs)), expected, "at {}", secs);
        secs += 7_777_777;
    }
}

fn summary(p: &sys_dashboard::weather::plan::ForecastPlan) -> String {
    let mut s = format!(
        "{}|{}|{}|{:?}|{}",
        p.location, p.current.label, p.current.temp, p.current.symbol, p.current.weekday
    );
    for f in &p.future {
        s.push_str(&format!("|{}:{}:{:?}:{}:{}", f.label, f.temp, f.symbol, f.plus_hours, f.weekday));
    }
    for d in &p.days {
        s.push_str(&format!("|{}:{:?}:{:?}", d.label, d.temps, d.midday_symbol));
    }
    s
}

#[test]
fn reordering_rows_changes_nothing() {
    let now = at(NOON_UTC_JUNE_14 - 2 * HOUR - 1800);
    let rows = june_rows();
    let mut reversed = june_rows();
    reversed.reverse();
    let a = build_forecast("Oulu", now, &rows).expect("plan");
    let b = build_forecast("Oulu", now, &reversed).expect("plan");
    assert_eq!(summary(&a), summary(&b));
}

#[test]
fn other_parameters_change_nothing() {
    let now = at(NOON_UTC_JUNE_14 - 2 * HOUR - 1800);
    let rows = june_rows();
    let mut more = vec![row(NOON_UTC_JUNE_14, "Pressure", "1012")];
    more.extend(june_rows());
    more.push(row(NOON_UTC_JUNE_14 - 4 * HOUR, "WindSpeedMS", "3.5"));
    let a = build_forecast("Oulu", now, &rows).expect("plan");
    let b = build_forecast("Oulu", now, &more).expect("plan");
    assert_eq!(summary(&a), summary(&b));
}

#[test]
fn midday_symbol_is_nearest_to_local_noon_earliest_on_a_tie() {
    // Local noon on the 14th is 09:00 UTC. 08:00 and 10:00 are equally near
    // and the earlier wins; 12:00 UTC is farther.
    let base = NOON_UTC_JUNE_14;
    let rows = vec![
        row(base, "Temperature", "14"),
        row(base, "WeatherSymbol3", "3"),
        row(base - 2 * HOUR, "WeatherSymbol3", "21"),
        row(base - 4 * HOUR, "WeatherSymbol3", "1"),
        row(base - 4 * HOUR, "Temperature", "9"),
    ];
    let plan = build_forecast("x", at(base), &rows).expect("plan");
    assert_eq!(plan.days[0].midday_symbol.as_deref(), Some("1"));
    // Without a symbol on the day there is none.
    let plain = vec![row(base, "Temperature", "14")];
    let plan = build_forecast("x", at(base), &plain).expect("plan");
    assert_eq!(plan.days[0].midday_symbol, None);
}

#[test]
fn feed_reading_error_is_handed_on() {
    let err = forecast_from_feed("Oulu", at(NOON_UTC_JUNE_14), "<a><b></a>").err().unwrap();
    assert!(err.starts_with("XML parse error at byte "), "{}", err);
}

#[test]
fn every_text_of_a_plan_from_the_feed_reads_as_a_float() {
    let xml = "<a>\
        <BsWfsElement><Time>2026-06-14T12:00:00Z</Time><ParameterName>Temperature</ParameterName>\
        <ParameterValue> -2.5 </ParameterValue></BsWfsElement>\
        <BsWfsElement><Time>2026-06-14T12:00:00Z</Time><ParameterName>WeatherSymbol3</ParameterName>\
        <ParameterValue>21.0</ParameterValue></BsWfsElement>\
        <BsWfsElement><Time>2026-06-14T14:00:00Z</Time><ParameterName>Temperature</ParameterName>\
        <ParameterValue>NaN</ParameterValue></BsWfsElement>\
        <BsWfsElement><Time>2026-06-14T15:00:00Z</Time><ParameterName>Temperature</ParameterName>\
        <ParameterValue>1e1</ParameterValue></BsWfsElement>\
        </a>";
    let plan = forecast_from_feed("Oulu", at(NOON_UTC_JUNE_14), xml).expect("plan");
    let mut texts: Vec<String> = vec![plan.current.temp.clone()];
    texts.extend(plan.current.symbol.iter().cloned());
    for f in &plan.future {
        texts.push(f.temp.clone());
        texts.extend(f.symbol.iter().cloned());
    }
    for d in &plan.days {
        texts.extend(d.temps.iter().cloned());
        texts.extend(d.midday_symbol.iter().cloned());
    }
    assert_eq!(plan.current.temp, "-2.5");
    assert!(texts.len() >= 3);
    for t in texts {
        let v: f32 = t.parse().expect("float text");
        assert!(!v.is_nan());
    }
}

#[test]
fn chrono_range_constants_match_chrono() {
    assert!(DateTime::from_timestamp(CHRONO_MAX_SECS, 0).is_some());
    assert!(DateTime::from_timestamp(CHRONO_MAX_SECS + 1, 0).is_none());
    assert!(DateTime::from_timestamp(CHRONO_MIN_SECS, 0).is_some());
    assert!(DateTime::from_timestamp(CHRONO_MIN_SECS - 1, 0).is_none());
}

#[test]
fn weekday_near_the_end_of_chrono_range() {
    let t = at(CHRONO_MAX_SECS - 86_400);
    let dt = DateTime::from_timestamp(t.secs, 0).unwrap();
    let names = ["Mon", "Tue", "Wed", "Thu", "Fri", "Sat", "Sun"];
    let expected = names[dt.with_timezone(&Helsinki).weekday().num_days_from_monday() as usize];
    assert_eq!(weekday_label_local(t), expected);
}

#[test]
fn the_place_only_names_the_plan() {
    let now = at(NOON_UTC_JUNE_14 - 2 * HOUR - 1800);
    let a = build_forecast("oulu", now, &june_rows()).expect("plan");
    let b = build_forecast("kajaani", now, &june_rows()).expect("plan");
    assert_eq!(a.location, "Oulu");
    assert_eq!(b.location, "Kajaani");
    assert_eq!(summary(&a).replacen("Oulu", "", 1), summary(&b).replacen("Kajaani", "", 1));
}

#[test]
fn buckets_order_by_second_then_nanosecond() {
    let rows = vec![
        Row { time: UtcInstant { secs: 100, nanos: 5 }, name: "Temperature".to_string(), value: "1".to_string() },
        Row { time: UtcInstant { secs: 100, nanos: 1 }, name: "Temperature".to_string(), value: "2".to_string() },
        Row { time: UtcInstant { secs: -3, nanos: 9 }, name: "WeatherSymbol3".to_string(), value: "3".to_string() },
    ];
    let bs = bucket_rows_of(&rows);
    let order: Vec<(i64, u32)> = bs.iter().map(|b| (b.time.secs, b.time.nanos)).collect();
    assert_eq!(order, vec![(-3, 9), (100, 1), (100, 5)]);
    assert_eq!(bs[1].temp.as_deref(), Some("2"));
}

#[test]
fn distance_counts_seconds_as_chrono_does() {
    let samples = [
        UtcInstant { secs: 59, nanos: 1_500_000_000 },
        UtcInstant { secs: 60, nanos: 0 },
        UtcInstant { secs: 58, nanos: 999_999_999 },
        UtcInstant { secs: 86_399, nanos: 1_200_000_000 },
        UtcInstant { secs: 86_400, nanos: 300 },
        UtcInstant { secs: -1, nanos: 1_000_000_000 },
        UtcInstant { secs: -86_401, nanos: 7 },
        UtcInstant { secs: NOON_UTC_JUNE_14 + 59, nanos: 1_999_999_999 },
        UtcInstant { secs: NOON_UTC_JUNE_14, nanos: 500_000_000 },
        UtcInstant { secs: CHRONO_MAX_SECS, nanos: 0 },
        UtcInstant { secs: CHRONO_MIN_SECS, nanos: 1 },
    ];
    for a in samples {
        for b in samples {
            let da = DateTime::from_timestamp(a.secs, a.nanos).unwrap();
            let db = DateTime::from_timestamp(b.secs, b.nanos).unwrap();
            let expected = da.signed_duration_since(db).num_seconds().abs();
            assert_eq!(distance_of(a, b), expected, "{:?} {:?}", a, b);
        }
    }
}
