# sys_dashboard

A desktop dashboard of small always-on-top widgets: CPU, RAM and GPU gauges
and a weather forecast for a Finnish town from the FMI Open Data service.
Each widget is its own window; positions, sizes and lock states persist in
`widgets.json`.

## Layout

- `src/` — the library, written in Verus and verified:
  - `config.rs`: the per-widget configuration store (read-back, defaults,
    the forecast place with its fallback), with its laws;
  - `text.rs`: Unicode whitespace and trimming, ASCII case folding, the
    `f32` text grammar, decimal rendering, capitalisation;
  - `time.rs`: UTC instants as numbers and the Europe/Helsinki calendar
    questions, answered by chrono and chrono-tz;
  - `weather/feed.rs`: reading the WFS "simple" feature collection (tokens
    from quick-xml) into rows;
  - `weather/bucket_map.rs`: gathering rows into a `BTreeMap` keyed by
    instant and reading it out in time order;
  - `weather/plan.rs`: bucketing rows by instant and planning "now", the
    +2/+4/+6 hour readings and the three daily summaries;
  - `weather/fmi.rs`: the FMI query and the path from answer to plan;
  - `weather/condition.rs`: `WeatherSymbol3` codes to condition keys;
  - `gpu.rs`: NVML sampling of the primary GPU.
- `tests/` — tests of the library.
- `app/` — the Tauri program around it: windows and commands, the config
  file on disk, HTTP, `sysinfo`, and everything that handles floating-point
  values (temperatures, CPU percentage, the demo provider).
