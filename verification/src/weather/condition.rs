//! FMI `WeatherSymbol3` codes and the eight condition keys the widget has
//! icons for.
use vstd::prelude::*;

verus! {

/// The eight condition keys: `clear`, `partly-cloudy`, `cloudy`, `fog`,
/// `rain`, `thunder`, `sleet`, `snow`.
pub open spec fn is_condition_key(s: Seq<char>) -> bool {
    ||| s == "clear"@
    ||| s == "partly-cloudy"@
    ||| s == "cloudy"@
    ||| s == "fog"@
    ||| s == "rain"@
    ||| s == "thunder"@
    ||| s == "sleet"@
    ||| s == "snow"@
}

/// The condition key of a rounded `WeatherSymbol3` code:
///   * `1` clear, `2` partly cloudy, `3` cloudy;
///   * `21..=23` rain showers and `31..=33` rain: rain;
///   * `41..=43` snow showers and `51..=53` snowfall: snow;
///   * `61..=63` thunder;
///   * `71..=73` sleet showers and `81..=83` sleet: sleet;
///   * `91` mist and `92` fog: fog.
/// A missing or unknown code is `cloudy`, a neutral icon.
pub open spec fn condition_key(code: Option<i32>) -> Seq<char> {
    match code {
        None => "cloudy"@,
        Some(c) => if c == 1 {
            "clear"@
        } else if c == 2 {
            "partly-cloudy"@
        } else if c == 3 {
            "cloudy"@
        } else if (21 <= c <= 23) || (31 <= c <= 33) {
            "rain"@
        } else if (41 <= c <= 43) || (51 <= c <= 53) {
            "snow"@
        } else if 61 <= c <= 63 {
            "thunder"@
        } else if (71 <= c <= 73) || (81 <= c <= 83) {
            "sleet"@
        } else if c == 91 || c == 92 {
            "fog"@
        } else {
            "cloudy"@
        },
    }
}

/// Maps a `WeatherSymbol3` code, already rounded to the nearest integer,
/// to one of the eight condition keys.
pub fn symbol_to_condition(symbol: Option<i32>) -> (r: String)
    ensures
        r@ == condition_key(symbol),
        is_condition_key(r@),
{
    let key = match symbol {
        None => "cloudy",
        Some(c) => if c == 1 {
            "clear"
        } else if c == 2 {
            "partly-cloudy"
        } else if c == 3 {
            "cloudy"
        } else if (21 <= c && c <= 23) || (31 <= c && c <= 33) {
            "rain"
        } else if (41 <= c && c <= 43) || (51 <= c && c <= 53) {
            "snow"
        } else if 61 <= c && c <= 63 {
            "thunder"
        } else if (71 <= c && c <= 73) || (81 <= c && c <= 83) {
            "sleet"
        } else if c == 91 || c == 92 {
            "fog"
        } else {
            "cloudy"
        },
    };
    String::from_str(key)
}

/// The FMI code groups and their keys, code by code: 1 is clear, 2 partly
/// cloudy, 3 cloudy; rain showers (21 to 23) and rain (31 to 33) are rain;
/// snow showers (41 to 43) and snowfall (51 to 53) are snow; 61 to 63 are
/// thunder; sleet showers (71 to 73) and sleet (81 to 83) are sleet; mist
/// (91) and fog (92) are fog; every other code, and no code, is cloudy.
pub proof fn law_condition_groups(c: i32)
    ensures
        c == 1 ==> condition_key(Some(c)) == "clear"@,
        c == 2 ==> condition_key(Some(c)) == "partly-cloudy"@,
        c == 3 ==> condition_key(Some(c)) == "cloudy"@,
        (21 <= c <= 23 || 31 <= c <= 33) ==> condition_key(Some(c)) == "rain"@,
        (41 <= c <= 43 || 51 <= c <= 53) ==> condition_key(Some(c)) == "snow"@,
        61 <= c <= 63 ==> condition_key(Some(c)) == "thunder"@,
        (71 <= c <= 73 || 81 <= c <= 83) ==> condition_key(Some(c)) == "sleet"@,
        (c == 91 || c == 92) ==> condition_key(Some(c)) == "fog"@,
        !(1 <= c <= 3 || 21 <= c <= 23 || 31 <= c <= 33 || 41 <= c <= 43 || 51 <= c <= 53
            || 61 <= c <= 63 || 71 <= c <= 73 || 81 <= c <= 83 || c == 91 || c == 92)
            ==> condition_key(Some(c)) == "cloudy"@,
        condition_key(None) == "cloudy"@,
{
}


} // verus!
